use vstd::prelude::*;

use crate::env::obstacle::Obstacle;
use crate::geom::{in_limits, MAX_DIM};

verus! {

/// A bounded configuration space: a bounding box given by its low
/// and high corners, and a collection of obstacles inside it.
#[derive(Clone)]
pub struct Env {
    pub low: Vec<i64>,
    pub high: Vec<i64>,
    pub obstacles: Vec<Obstacle>,
}

impl Env {
    /// Well-formedness: matching in-range corners and well-formed
    /// obstacles of the same dimension.
    pub open spec fn wf(&self) -> bool {
        &&& 1 <= self.low@.len() <= MAX_DIM
        &&& self.high@.len() == self.low@.len()
        &&& in_limits(self.low@)
        &&& in_limits(self.high@)
        &&& forall|j: int|
            0 <= j < self.obstacles@.len() ==> (#[trigger] self.obstacles@[j]).wf()
                && self.obstacles@[j].dim() == self.low@.len()
    }

    /// Whether some obstacle contains `p`.
    pub open spec fn contains(&self, p: Seq<i64>) -> bool {
        exists|j: int| 0 <= j < self.obstacles@.len() && (#[trigger] self.obstacles@[j]).contains(p)
    }

    /// Whether `position` lies inside any obstacle of the
    /// environment; its negation is the feasibility predicate handed
    /// to the planners.
    pub fn is_inside_obstacle(&self, position: &Vec<i64>) -> (r: bool)
        requires
            self.wf(),
            position@.len() == self.low@.len(),
            in_limits(position@),
        ensures
            r == self.contains(position@),
    {
        let n = self.obstacles.len();
        let mut j: usize = 0;
        while j < n
            invariant
                0 <= j <= n,
                n == self.obstacles@.len(),
                self.wf(),
                position@.len() == self.low@.len(),
                in_limits(position@),
                forall|i: int| 0 <= i < j ==> !(#[trigger] self.obstacles@[i]).contains(position@),
            decreases n - j,
        {
            if self.obstacles[j].is_inside(position) {
                return true;
            }
            j = j + 1;
        }
        false
    }
}

/// A ready-made two-dimensional environment with a mix of box and
/// ball obstacles, with coordinates in thousandths of a drawing unit: a
/// 50 by 30 unit box holding four boxes and five balls.
pub fn create_example_2d_env() -> (e: Env)
    ensures
        e.wf(),
        e.low@.len() == 2,
        e.low@[0] == 0 && e.low@[1] == 0,
        e.high@[0] == 50_000 && e.high@[1] == 30_000,
        e.obstacles@.len() == 9,
        e.obstacles@[0] matches Obstacle::RectObstacle { center, size } && center@
            == seq![18_000i64, 13_000i64] && size@ == seq![8_000i64, 2_000i64],
        e.obstacles@[1] matches Obstacle::RectObstacle { center, size } && center@
            == seq![22_000i64, 23_500i64] && size@ == seq![8_000i64, 3_000i64],
        e.obstacles@[2] matches Obstacle::RectObstacle { center, size } && center@
            == seq![27_000i64, 13_000i64] && size@ == seq![2_000i64, 12_000i64],
        e.obstacles@[3] matches Obstacle::RectObstacle { center, size } && center@
            == seq![37_000i64, 15_000i64] && size@ == seq![10_000i64, 2_000i64],
        e.obstacles@[4] matches Obstacle::CircleObstacle { center, radius } && center@
            == seq![7_000i64, 12_000i64] && radius == 3_000,
        e.obstacles@[5] matches Obstacle::CircleObstacle { center, radius } && center@
            == seq![46_000i64, 20_000i64] && radius == 2_000,
        e.obstacles@[6] matches Obstacle::CircleObstacle { center, radius } && center@
            == seq![15_000i64, 5_000i64] && radius == 2_000,
        e.obstacles@[7] matches Obstacle::CircleObstacle { center, radius } && center@
            == seq![37_000i64, 7_000i64] && radius == 3_000,
        e.obstacles@[8] matches Obstacle::CircleObstacle { center, radius } && center@
            == seq![37_000i64, 23_000i64] && radius == 3_000,
{
    let low: Vec<i64> = vec![0, 0];
    let high: Vec<i64> = vec![50_000, 30_000];
    let mut obstacles: Vec<Obstacle> = Vec::new();
    obstacles.push(
        Obstacle::RectObstacle { center: vec![18_000, 13_000], size: vec![8_000, 2_000] },
    );
    obstacles.push(
        Obstacle::RectObstacle { center: vec![22_000, 23_500], size: vec![8_000, 3_000] },
    );
    obstacles.push(
        Obstacle::RectObstacle { center: vec![27_000, 13_000], size: vec![2_000, 12_000] },
    );
    obstacles.push(
        Obstacle::RectObstacle { center: vec![37_000, 15_000], size: vec![10_000, 2_000] },
    );
    obstacles.push(Obstacle::CircleObstacle { center: vec![7_000, 12_000], radius: 3_000 });
    obstacles.push(Obstacle::CircleObstacle { center: vec![46_000, 20_000], radius: 2_000 });
    obstacles.push(Obstacle::CircleObstacle { center: vec![15_000, 5_000], radius: 2_000 });
    obstacles.push(Obstacle::CircleObstacle { center: vec![37_000, 7_000], radius: 3_000 });
    obstacles.push(Obstacle::CircleObstacle { center: vec![37_000, 23_000], radius: 3_000 });
    let e = Env { low, high, obstacles };
    proof {
        assert(e.obstacles@[0] matches Obstacle::RectObstacle { center, size } && center@
            =~= seq![18_000i64, 13_000i64] && size@ =~= seq![8_000i64, 2_000i64]);
        assert(e.obstacles@[1] matches Obstacle::RectObstacle { center, size } && center@
            =~= seq![22_000i64, 23_500i64] && size@ =~= seq![8_000i64, 3_000i64]);
        assert(e.obstacles@[2] matches Obstacle::RectObstacle { center, size } && center@
            =~= seq![27_000i64, 13_000i64] && size@ =~= seq![2_000i64, 12_000i64]);
        assert(e.obstacles@[3] matches Obstacle::RectObstacle { center, size } && center@
            =~= seq![37_000i64, 15_000i64] && size@ =~= seq![10_000i64, 2_000i64]);
        assert(e.obstacles@[4] matches Obstacle::CircleObstacle { center, radius } && center@
            =~= seq![7_000i64, 12_000i64] && radius == 3_000);
        assert(e.obstacles@[5] matches Obstacle::CircleObstacle { center, radius } && center@
            =~= seq![46_000i64, 20_000i64] && radius == 2_000);
        assert(e.obstacles@[6] matches Obstacle::CircleObstacle { center, radius } && center@
            =~= seq![15_000i64, 5_000i64] && radius == 2_000);
        assert(e.obstacles@[7] matches Obstacle::CircleObstacle { center, radius } && center@
            =~= seq![37_000i64, 7_000i64] && radius == 3_000);
        assert(e.obstacles@[8] matches Obstacle::CircleObstacle { center, radius } && center@
            =~= seq![37_000i64, 23_000i64] && radius == 3_000);

        assert forall|j: int|
            0 <= j < e.obstacles@.len() implies (#[trigger] e.obstacles@[j]).wf()
            && e.obstacles@[j].dim() == e.low@.len() by {
            assert(e.obstacles@.len() == 9);
        }
    }
    e
}

} // verus!
