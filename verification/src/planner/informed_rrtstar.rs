use vstd::prelude::*;

use crate::geom::{dist, in_limits, sq_dist, sq_norm, COORD_LIMIT, NODE_LIMIT};
use crate::planner::config::{config_error_of, validate_config, ConfigError};
use crate::planner::node::Node;
use crate::planner::rrt::AbstractRRT;
use crate::planner::tree::{approved_view, lemma_tree_grow, planner_tree_ok, Tree};
use crate::rng::{sample_point, RandomSource};

verus! {

/// The informed optimizing planner: behaves like the cost-optimizing
/// planner until a goal connection exists, then confines sampling to
/// a shrinking ellipsoid with the start and goal as foci — the
/// region that can still contain a cheaper path. The ellipsoid
/// transform aligns its major axis with the start-to-goal direction
/// through a reflection across `rotation_axis`; membership of each
/// accepted sample is checked exactly against the focal-distance
/// sum.
pub struct InformedRRTStar<F: Fn(Vec<i64>) -> bool> {
    pub start: Vec<i64>,
    pub goal: Vec<i64>,
    pub center: Vec<i64>,
    pub low: Vec<i64>,
    pub high: Vec<i64>,
    pub cost_min: i64,
    pub cost_max: i64,
    pub rotation_axis: Vec<i64>,
    pub rotation_axis_sq: i64,
    pub nodes: Tree,
    pub is_approved: F,
    pub goal_sample_rate: u32,
    pub step_size: i64,
    pub max_iter: usize,
    pub goal_node_index: usize,
    pub is_logging_enabled: bool,
    pub log: Vec<Vec<Node>>,
    pub rng: RandomSource,
}

impl<F: Fn(Vec<i64>) -> bool> InformedRRTStar<F> {
    /// Everything the planner maintains except the freshness of
    /// `cost_max`: valid parameters, a tree in planner shape, a goal
    /// index that is absent or a node at the goal, a callable
    /// feasibility predicate, and well-bounded ellipsoid data
    /// (`cost_min` is the start-goal distance; the reflection axis
    /// and its squared norm stay small enough for the sampling
    /// arithmetic).
    pub open spec fn inv_core(&self) -> bool {
        &&& config_error_of(
            self.start@,
            self.goal@,
            self.low@,
            self.high@,
            self.goal_sample_rate,
            self.step_size,
        ) is None
        &&& planner_tree_ok(self.nodes, self.start@, self.goal@, self.step_size, self.is_approved)
        &&& self.goal_node_index == 0 || (0 < self.goal_node_index < self.nodes.count()
            && self.nodes.pos(self.goal_node_index as int) == self.goal@)
        &&& forall|v: Vec<i64>| call_requires(self.is_approved, (v,))
        &&& self.center@.len() == self.nodes.dim
        &&& in_limits(self.center@)
        &&& self.cost_min == dist(self.start@, self.goal@)
        &&& self.rotation_axis@.len() == self.nodes.dim
        &&& forall|k: int|
            0 <= k < self.rotation_axis@.len() ==> -16_000_000
                <= #[trigger] self.rotation_axis@[k] <= 16_000_000
        &&& 0 <= self.rotation_axis_sq <= 4_100_000_000_000_000
    }

    /// The full invariant: once a goal connection exists, `cost_max`
    /// is exactly the cost of the current goal node.
    pub open spec fn inv(&self) -> bool {
        &&& self.inv_core()
        &&& self.goal_node_index != 0 ==> self.cost_max == self.nodes.cost_of(
            self.goal_node_index as int,
        )
    }

    /// Builds a planner; see the basic planner for the parameters.
    /// The sampling ellipsoid's fixed data — the focal distance
    /// `cost_min`, the box center and the rotation axis — are
    /// derived here once.
    pub fn new(
        start: Vec<i64>,
        goal: Vec<i64>,
        low: Vec<i64>,
        high: Vec<i64>,
        is_approved: F,
        goal_sample_rate: u32,
        step_size: i64,
        max_iter: usize,
        seed: u64,
    ) -> (r: Result<InformedRRTStar<F>, ConfigError>)
        requires
            forall|v: Vec<i64>| call_requires(is_approved, (v,)),
        ensures
            match r {
                Result::Ok(p) => {
                    &&& config_error_of(start@, goal@, low@, high@, goal_sample_rate, step_size)
                        is None
                    &&& p.inv()
                    &&& p.start@ == start@
                    &&& p.goal@ == goal@
                    &&& p.low@ == low@
                    &&& p.high@ == high@
                    &&& p.is_approved == is_approved
                    &&& p.goal_sample_rate == goal_sample_rate
                    &&& p.step_size == step_size
                    &&& p.max_iter == max_iter
                    &&& p.cost_min == dist(start@, goal@)
                    &&& p.cost_max == i64::MAX
                    &&& p.center@.len() == start@.len()
                    &&& forall|k: int|
                        0 <= k < p.center@.len() ==> #[trigger] p.center@[k]
                            == crate::geom::div_toward_zero(start@[k] + goal@[k], 2)
                    &&& p.nodes.count() == 1
                    &&& p.goal_node_index == 0
                    &&& !p.is_logging_enabled
                    &&& p.log@.len() == 0
                },
                Result::Err(e) => config_error_of(
                    start@,
                    goal@,
                    low@,
                    high@,
                    goal_sample_rate,
                    step_size,
                ) == Some(e),
            },
    {
        match validate_config(&start, &goal, &low, &high, goal_sample_rate, step_size) {
            Some(e) => Err(e),
            None => {
                let dim = start.len();
                let cost_min = crate::geom::dist_points(&start, &goal);
                // The ellipsoid is centered on the start-goal
                // midpoint.
                let mut center: Vec<i64> = Vec::new();
                let mut k: usize = 0;
                while k < dim
                    invariant
                        0 <= k <= dim,
                        dim == start@.len() == goal@.len(),
                        in_limits(start@),
                        in_limits(goal@),
                        center@.len() == k,
                        in_limits(center@),
                        forall|j: int|
                            0 <= j < k ==> #[trigger] center@[j] == crate::geom::div_toward_zero(
                                start@[j] + goal@[j],
                                2,
                            ),
                    decreases dim - k,
                {
                    let c = crate::geom::half_coord(start[k] + goal[k]);
                    center.push(c);
                    k = k + 1;
                }
                // The reflection axis `d - |d| e1` carries the unit
                // first basis vector onto the start-to-goal
                // direction.
                let mut rotation_axis: Vec<i64> = Vec::new();
                let mut rotation_axis_sq: i64 = 0;
                let mut k2: usize = 0;
                while k2 < dim
                    invariant
                        0 <= k2 <= dim,
                        dim == start@.len() == goal@.len(),
                        dim <= crate::geom::MAX_DIM,
                        in_limits(start@),
                        in_limits(goal@),
                        0 <= cost_min <= crate::geom::MAX_EDGE,
                        rotation_axis@.len() == k2,
                        forall|j: int|
                            0 <= j < k2 ==> -16_000_000 <= #[trigger] rotation_axis@[j]
                                <= 16_000_000,
                        0 <= rotation_axis_sq <= (k2 as int) * 256_000_000_000_000,
                    decreases dim - k2,
                {
                    let d: i64 = goal[k2] - start[k2];
                    let w: i64 = if k2 == 0 {
                        d - cost_min
                    } else {
                        d
                    };
                    assert(-16_000_000 <= w <= 16_000_000);
                    assert(w * w <= 256_000_000_000_000) by (nonlinear_arith)
                        requires
                            -16_000_000 <= w <= 16_000_000,
                    ;
                    assert(w * w >= 0) by (nonlinear_arith);
                    rotation_axis.push(w);
                    rotation_axis_sq = rotation_axis_sq + w * w;
                    k2 = k2 + 1;
                }
                let tree = Tree::new(start.clone());
                let p = InformedRRTStar {
                    start,
                    goal,
                    center,
                    low,
                    high,
                    cost_min,
                    cost_max: i64::MAX,
                    rotation_axis,
                    rotation_axis_sq,
                    nodes: tree,
                    is_approved,
                    goal_sample_rate,
                    step_size,
                    max_iter,
                    goal_node_index: 0,
                    is_logging_enabled: false,
                    log: Vec::new(),
                    rng: RandomSource::from_seed(seed),
                };
                proof {
                    assert(p.nodes.pos(0) == p.start@);
                    assert forall|i: int|
                        0 <= i < p.nodes.count() implies #[trigger] p.nodes.pos(i) == p.start@
                        || p.nodes.pos(i) == p.goal@ || approved_view(
                        p.is_approved,
                        p.nodes.pos(i),
                    ) by {}
                    assert((16int) * 256_000_000_000_000 <= 4_100_000_000_000_000);
                }
                Ok(p)
            },
        }
    }

    /// Switches on per-iteration snapshots of the node arena.
    pub fn enable_logging(&mut self)
        ensures
            final(self).is_logging_enabled,
            *final(self) == (InformedRRTStar { is_logging_enabled: true, ..*old(self) }),
    {
        self.is_logging_enabled = true;
    }

    /// Attaches `new_node`'s position as a child of the node at
    /// `parent_node_index`; see the optimizing planner.
    pub fn add_node(&mut self, new_node: Node, parent_node_index: usize) -> (idx: usize)
        requires
            old(self).inv_core(),
            parent_node_index < old(self).nodes.count(),
            old(self).nodes.count() < NODE_LIMIT,
            new_node.position@.len() == old(self).nodes.dim,
            in_limits(new_node.position@),
        ensures
            idx == old(self).nodes.count(),
            final(self).nodes.wf(),
            final(self).nodes.count() == old(self).nodes.count() + 1,
            final(self).nodes.dim == old(self).nodes.dim,
            forall|i: int|
                0 <= i < old(self).nodes.count() ==> final(self).nodes.pos(i) == old(
                    self,
                ).nodes.pos(i),
            forall|i: int|
                0 <= i < old(self).nodes.count() ==> final(self).nodes.parent_of(i) == old(
                    self,
                ).nodes.parent_of(i),
            forall|i: int|
                0 <= i < old(self).nodes.count() ==> final(self).nodes.cost_of(i) == old(
                    self,
                ).nodes.cost_of(i),
            final(self).nodes.pos(idx as int) == new_node.position@,
            final(self).nodes.par(idx as int) == parent_node_index,
            final(self).nodes.cost_of(idx as int) == old(self).nodes.cost_of(
                parent_node_index as int,
            ) + dist(old(self).nodes.pos(parent_node_index as int), new_node.position@),
            *final(self) == (InformedRRTStar { nodes: final(self).nodes, ..*old(self) }),
            sq_dist(
                old(self).nodes.pos(parent_node_index as int),
                new_node.position@,
            ) <= old(self).step_size * old(self).step_size && (new_node.position@ == old(
                self,
            ).start@ || new_node.position@ == old(self).goal@ || approved_view(
                old(self).is_approved,
                new_node.position@,
            )) ==> final(self).inv_core(),
    {
        let ghost t0 = self.nodes;
        let idx = self.nodes.add_node(new_node.position, parent_node_index);
        proof {
            let cv = self.nodes.pos(idx as int);
            assert(cv == new_node.position@);
            if sq_dist(t0.pos(parent_node_index as int), cv) <= self.step_size * self.step_size
                && (cv == self.start@ || cv == self.goal@ || approved_view(
                self.is_approved,
                cv,
            )) {
                lemma_tree_grow(
                    t0,
                    self.nodes,
                    self.start@,
                    self.goal@,
                    self.step_size,
                    self.is_approved,
                    parent_node_index as int,
                    idx as int,
                    cv,
                );
                if self.goal_node_index != 0 {
                    assert(self.nodes.pos(self.goal_node_index as int) == t0.pos(
                        self.goal_node_index as int,
                    ));
                }
            }
        }
        idx
    }

    /// The index of the node within one step of `new_node` that
    /// minimizes `cost + distance`, the cost a new node there would
    /// get; ties go to the first-seen index. When no node lies
    /// within one step the root index 0 is returned unchanged.
    pub fn get_parent_node_index_minimize_cost(&self, new_node: &Node) -> (r: usize)
        requires
            self.inv_core(),
            new_node.position@.len() == self.nodes.dim,
            in_limits(new_node.position@),
        ensures
            r < self.nodes.count(),
            (exists|j: int|
                0 <= j < self.nodes.count() && sq_dist(#[trigger] self.nodes.pos(j), new_node.position@)
                    <= self.step_size * self.step_size) ==> {
                &&& sq_dist(self.nodes.pos(r as int), new_node.position@) <= self.step_size
                    * self.step_size
                &&& forall|j: int|
                    0 <= j < self.nodes.count() && sq_dist(
                        #[trigger] self.nodes.pos(j),
                        new_node.position@,
                    ) <= self.step_size * self.step_size ==> self.nodes.cost_of(r as int) + dist(
                        self.nodes.pos(r as int),
                        new_node.position@,
                    ) <= self.nodes.cost_of(j) + dist(self.nodes.pos(j), new_node.position@)
                &&& forall|j: int|
                    0 <= j < r && sq_dist(#[trigger] self.nodes.pos(j), new_node.position@)
                        <= self.step_size * self.step_size ==> self.nodes.cost_of(j) + dist(
                        self.nodes.pos(j),
                        new_node.position@,
                    ) > self.nodes.cost_of(r as int) + dist(
                        self.nodes.pos(r as int),
                        new_node.position@,
                    )
            },
            !(exists|j: int|
                0 <= j < self.nodes.count() && sq_dist(#[trigger] self.nodes.pos(j), new_node.position@)
                    <= self.step_size * self.step_size) ==> r == 0,
    {
        let nearest = self.nodes.nearest(&new_node.position);
        proof {
            assert(self.nodes.pos(nearest as int).len() == self.nodes.dim && in_limits(
                self.nodes.pos(nearest as int),
            ));
        }
        let nsq = crate::geom::sq_dist_points(
            &self.nodes.get(nearest).position,
            &new_node.position,
        );
        let ss: i128 = crate::geom::square_i128(self.step_size);
        if (nsq as i128) <= ss {
            self.nodes.min_cost_parent_within(&new_node.position, self.step_size)
        } else {
            proof {
                assert forall|j: int|
                    0 <= j < self.nodes.count() implies !(sq_dist(
                    #[trigger] self.nodes.pos(j),
                    new_node.position@,
                ) <= self.step_size * self.step_size) by {
                    assert(sq_dist(self.nodes.pos(nearest as int), new_node.position@) <= sq_dist(
                        self.nodes.pos(j),
                        new_node.position@,
                    ));
                }
            }
            0
        }
    }

    /// The indices of all nodes within one step of `node`, in
    /// increasing order.
    pub fn get_near_node_indices(&self, node: &Node) -> (v: Vec<usize>)
        requires
            self.inv_core(),
            node.position@.len() == self.nodes.dim,
            in_limits(node.position@),
        ensures
            forall|k1: int, k2: int| 0 <= k1 < k2 < v@.len() ==> v@[k1] < v@[k2],
            forall|k: int|
                0 <= k < v@.len() ==> ((#[trigger] v@[k]) as int) < self.nodes.count() && sq_dist(
                    self.nodes.pos(v@[k] as int),
                    node.position@,
                ) <= self.step_size * self.step_size,
            forall|j: int|
                0 <= j < self.nodes.count() && sq_dist(#[trigger] self.nodes.pos(j), node.position@)
                    <= self.step_size * self.step_size ==> v@.contains(j as usize),
    {
        self.nodes.near_indices(&node.position, self.step_size)
    }

    /// For each listed node, reparents it to the node at
    /// `new_node_index` whenever that lowers its cost; no cost ever
    /// rises. See the optimizing planner.
    pub fn rewire_near_nodes(&mut self, near_node_indices: Vec<usize>, new_node_index: usize)
        requires
            old(self).inv_core(),
            new_node_index < old(self).nodes.count(),
            forall|k: int|
                0 <= k < near_node_indices@.len() ==> ((#[trigger] near_node_indices@[k]) as int)
                    < old(self).nodes.count(),
            forall|k: int|
                0 <= k < near_node_indices@.len() ==> sq_dist(
                    old(self).nodes.pos(new_node_index as int),
                    old(self).nodes.pos((#[trigger] near_node_indices@[k]) as int),
                ) <= old(self).step_size * old(self).step_size,
        ensures
            final(self).inv_core(),
            final(self).nodes.count() == old(self).nodes.count(),
            final(self).nodes.dim == old(self).nodes.dim,
            forall|i: int|
                0 <= i < old(self).nodes.count() ==> final(self).nodes.pos(i) == old(
                    self,
                ).nodes.pos(i),
            forall|i: int|
                0 <= i < old(self).nodes.count() ==> final(self).nodes.cost_of(i) <= old(
                    self,
                ).nodes.cost_of(i),
            forall|i: int|
                0 <= i < old(self).nodes.count() ==> final(self).nodes.parent_of(i) == old(
                    self,
                ).nodes.parent_of(i) || (near_node_indices@.contains(i as usize)
                    && final(self).nodes.par(i) == new_node_index),
            *final(self) == (InformedRRTStar { nodes: final(self).nodes, ..*old(self) }),
            final(self).nodes.cost_of(new_node_index as int) == old(self).nodes.cost_of(
                new_node_index as int,
            ),
            forall|k: int|
                0 <= k < near_node_indices@.len() ==> final(self).nodes.cost_of(
                    (#[trigger] near_node_indices@[k]) as int,
                ) <= old(self).nodes.cost_of(new_node_index as int) + dist(
                    old(self).nodes.pos(new_node_index as int),
                    old(self).nodes.pos(near_node_indices@[k] as int),
                ),
            forall|i: int|
                0 <= i < old(self).nodes.count() && final(self).nodes.parent_of(i) != old(
                    self,
                ).nodes.parent_of(i) ==> final(self).nodes.par(i) == new_node_index
                    && final(self).nodes.cost_of(i) == old(self).nodes.cost_of(
                    new_node_index as int,
                ) + dist(
                    old(self).nodes.pos(new_node_index as int),
                    old(self).nodes.pos(i),
                ) && old(self).nodes.cost_of(new_node_index as int) + dist(
                    old(self).nodes.pos(new_node_index as int),
                    old(self).nodes.pos(i),
                ) < old(self).nodes.cost_of(i),
    {
        let ghost t0 = self.nodes;
        self.nodes.rewire_from_list(&near_node_indices, new_node_index);
        proof {
            // Edges stay within one step: an unchanged parent keeps
            // its old edge, and a reparented node now hangs off the
            // new node, which the precondition puts within one step.
            assert forall|i: int|
                1 <= i < self.nodes.count() implies sq_dist(
                self.nodes.pos(self.nodes.par(i)),
                #[trigger] self.nodes.pos(i),
            ) <= self.step_size * self.step_size by {
                if self.nodes.parent_of(i) == t0.parent_of(i) {
                    assert(self.nodes.par(i) == t0.par(i));
                    assert(sq_dist(t0.pos(t0.par(i)), t0.pos(i)) <= self.step_size
                        * self.step_size);
                } else {
                    assert(near_node_indices@.contains(i as usize) && self.nodes.par(i)
                        == new_node_index);
                    let kk = choose|kk: int|
                        0 <= kk < near_node_indices@.len() && near_node_indices@[kk]
                            == i as usize;
                    assert(sq_dist(
                        t0.pos(new_node_index as int),
                        t0.pos((near_node_indices@[kk]) as int),
                    ) <= self.step_size * self.step_size);
                }
            }
            assert forall|i: int|
                0 <= i < self.nodes.count() implies #[trigger] self.nodes.pos(i) == self.start@
                || self.nodes.pos(i) == self.goal@ || approved_view(
                self.is_approved,
                self.nodes.pos(i),
            ) by {
                assert(self.nodes.pos(i) == t0.pos(i));
                assert(t0.pos(i) == self.start@ || t0.pos(i) == self.goal@ || approved_view(
                    self.is_approved,
                    t0.pos(i),
                ));
            }
            if self.goal_node_index != 0 {
                assert(self.nodes.pos(self.goal_node_index as int) == t0.pos(
                    self.goal_node_index as int,
                ));
            }
        }
    }



    /// A node at a position drawn uniformly from the sampling box.
    pub fn sample(&mut self) -> (n: Node)
        requires
            old(self).inv_core(),
        ensures
            *final(self) == (InformedRRTStar { rng: final(self).rng, ..*old(self) }),
            n.position@.len() == old(self).nodes.dim,
            forall|k: int|
                0 <= k < n.position@.len() ==> old(self).low@[k] <= #[trigger] n.position@[k]
                    < old(self).high@[k],
            in_limits(n.position@),
            n.parent is None,
            n.children@.len() == 0,
            n.cost == 0,
    {
        let p = sample_point(&mut self.rng, &self.low, &self.high);
        Node::new(p)
    }

    /// The index of the tree node nearest to `node`, by squared
    /// Euclidean distance with first-seen tie-breaking.
    pub fn get_nearest_node_index(&self, node: &Node) -> (r: usize)
        requires
            self.inv_core(),
            node.position@.len() == self.nodes.dim,
            in_limits(node.position@),
        ensures
            r < self.nodes.count(),
            forall|j: int|
                0 <= j < self.nodes.count() ==> sq_dist(self.nodes.pos(r as int), node.position@)
                    <= sq_dist(#[trigger] self.nodes.pos(j), node.position@),
            forall|j: int|
                0 <= j < r ==> sq_dist(#[trigger] self.nodes.pos(j), node.position@) > sq_dist(
                    self.nodes.pos(r as int),
                    node.position@,
                ),
    {
        self.nodes.nearest(&node.position)
    }

    /// A node one step from `nearest_node` in the direction of
    /// `new_node`; meaningful only when `new_node` lies farther away
    /// than one step.
    pub fn get_extended_node(&self, nearest_node: &Node, new_node: &Node) -> (n: Node)
        requires
            self.inv_core(),
            nearest_node.position@.len() == self.nodes.dim,
            new_node.position@.len() == self.nodes.dim,
            in_limits(nearest_node.position@),
            in_limits(new_node.position@),
            sq_dist(nearest_node.position@, new_node.position@) > self.step_size
                * self.step_size,
        ensures
            n.position@.len() == self.nodes.dim,
            in_limits(n.position@),
            sq_dist(nearest_node.position@, n.position@) <= self.step_size * self.step_size,
            dist(nearest_node.position@, n.position@) <= self.step_size,
            forall|k: int|
                0 <= k < n.position@.len() ==> #[trigger] n.position@[k]
                    == nearest_node.position@[k] + crate::geom::steer_offset(
                    new_node.position@[k] - nearest_node.position@[k],
                    self.step_size as int,
                    sq_dist(nearest_node.position@, new_node.position@),
                ),
            n.parent is None,
            n.children@.len() == 0,
            n.cost == 0,
    {
        let p = crate::geom::steer_points(
            &nearest_node.position,
            &new_node.position,
            self.step_size,
        );
        Node::new(p)
    }

    /// Whether `node` lies within one step of the goal.
    pub fn is_near_goal(&self, node: &Node) -> (r: bool)
        requires
            self.inv_core(),
            node.position@.len() == self.nodes.dim,
            in_limits(node.position@),
        ensures
            r == (sq_dist(node.position@, self.goal@) <= self.step_size * self.step_size),
    {
        let s = crate::geom::sq_dist_points(&node.position, &self.goal);
        let ss: i128 = crate::geom::square_i128(self.step_size);
        (s as i128) <= ss
    }

    /// A point drawn uniformly from the unit ball, scaled by 1000:
    /// coordinates are drawn uniformly from `[-1000, 1000]` and
    /// redrawn until their squared norm is at most `1000^2`. After a
    /// bounded number of rejections the center of the ball is
    /// returned, which trivially lies inside it.
    pub fn sample_from_unit_ball(&mut self) -> (u: Vec<i64>)
        requires
            old(self).inv_core(),
        ensures
            *final(self) == (InformedRRTStar { rng: final(self).rng, ..*old(self) }),
            u@.len() == old(self).nodes.dim,
            forall|k: int| 0 <= k < u@.len() ==> -1000 <= #[trigger] u@[k] <= 1000,
            sq_norm(u@) <= 1_000_000,
    {
        let dim = self.nodes.dim;
        let mut attempt: usize = 0;
        while attempt < 64
            invariant
                *self == (InformedRRTStar { rng: self.rng, ..*old(self) }),
                old(self).inv_core(),
                dim == old(self).nodes.dim,
                0 <= attempt <= 64,
            decreases 64 - attempt,
        {
            let mut u: Vec<i64> = Vec::new();
            let mut s: i64 = 0;
            let mut k: usize = 0;
            while k < dim
                invariant
                    *self == (InformedRRTStar { rng: self.rng, ..*old(self) }),
                    old(self).inv_core(),
                    dim == old(self).nodes.dim,
                    dim <= crate::geom::MAX_DIM,
                    0 <= k <= dim,
                    u@.len() == k,
                    forall|j: int| 0 <= j < k ==> -1000 <= #[trigger] u@[j] <= 1000,
                    s == sq_norm(u@),
                    0 <= s <= (k as int) * 1_000_000,
                decreases dim - k,
            {
                let c: i64 = (self.rng.next_below(2001) as i64) - 1000;
                assert(-1000 <= c <= 1000);
                assert(0 <= c * c <= 1_000_000) by (nonlinear_arith)
                    requires
                        -1000 <= c <= 1000,
                ;
                proof {
                    let un = u@.push(c);
                    assert(un.drop_last() =~= u@);
                    assert(un.last() == c);
                }
                u.push(c);
                s = s + c * c;
                k = k + 1;
            }
            if s <= 1_000_000 {
                return u;
            }
            attempt = attempt + 1;
        }
        let mut u: Vec<i64> = Vec::new();
        let mut k: usize = 0;
        while k < dim
            invariant
                0 <= k <= dim,
                u@.len() == k,
                forall|j: int| 0 <= j < k ==> #[trigger] u@[j] == 0,
                sq_norm(u@) == 0,
            decreases dim - k,
        {
            proof {
                let un = u@.push(0i64);
                assert(un.drop_last() =~= u@);
                assert(un.last() == 0i64);
            }
            u.push(0);
            k = k + 1;
        }
        u
    }

    /// One attempt at an informed sample: a unit-ball draw is scaled
    /// by the ellipsoid radii (`cost_max / 2` along the major axis,
    /// `sqrt(cost_max^2 - cost_min^2) / 2` along the rest), reflected
    /// across `rotation_axis` to align the major axis with the
    /// start-to-goal direction, and translated to the midpoint. The
    /// result is accepted only if its focal-distance sum stays
    /// within `cost_max`, so every returned sample provably lies in
    /// the informed ellipsoid.
    fn try_informed_sample(&mut self) -> (r: Option<Vec<i64>>)
        requires
            old(self).inv(),
            old(self).goal_node_index != 0,
        ensures
            *final(self) == (InformedRRTStar { rng: final(self).rng, ..*old(self) }),
            r matches Some(x) ==> x@.len() == old(self).nodes.dim && in_limits(x@) && dist(
                x@,
                old(self).start@,
            ) + dist(x@, old(self).goal@) <= old(self).cost_max,
    {
        proof {
            self.nodes.lemma_cost_small(self.goal_node_index as int);
            assert(crate::planner::config::dims_ok(
                self.start@,
                self.goal@,
                self.low@,
                self.high@,
            ));
            assert(crate::planner::config::coords_ok(
                self.start@,
                self.goal@,
                self.low@,
                self.high@,
            ));
            crate::geom::lemma_dist_le_max_edge(self.start@, self.goal@);
        }
        let u = self.sample_from_unit_ball();
        assert(0 <= self.cost_max <= 8_000_000_000_000_000);
        assert(0 <= self.cost_min <= 8_000_000);
        // Ellipsoid radii.
        let r1u: u64 = (self.cost_max as u64) / 2;
        proof {
            vstd::arithmetic::div_mod::lemma_div_basics_5(self.cost_max as int, 2);
            vstd::arithmetic::div_mod::lemma_div_pos_is_pos(self.cost_max as int, 2);
        }
        let r1: i64 = r1u as i64;
        let cm2: i128 = crate::geom::square_i128(self.cost_max);
        let cn2: i128 = crate::geom::square_i128(self.cost_min);
        proof {
            assert(cm2 <= 64_000_000_000_000_000_000_000_000_000_000) by (nonlinear_arith)
                requires
                    cm2 == (self.cost_max as int) * (self.cost_max as int),
                    0 <= self.cost_max <= 8_000_000_000_000_000,
            ;
        }
        let m: i128 = if cm2 >= cn2 {
            cm2 - cn2
        } else {
            0
        };
        let rt: u128 = crate::geom::isqrt128(m as u128);
        proof {
            assert(rt <= 8_000_000_000_000_000) by (nonlinear_arith)
                requires
                    (rt as int) * (rt as int) <= m as int,
                    0 <= m <= 64_000_000_000_000_000_000_000_000_000_000,
                    rt >= 0,
            ;
        }
        let rtu: u64 = (rt as u64) / 2;
        proof {
            vstd::arithmetic::div_mod::lemma_div_basics_5(rt as int, 2);
            vstd::arithmetic::div_mod::lemma_div_pos_is_pos(rt as int, 2);
        }
        let r2: i64 = rtu as i64;
        assert(0 <= r1 <= 8_000_000_000_000_000 && 0 <= r2 <= 8_000_000_000_000_000);
        let dim = self.nodes.dim;
        // Scale the ball sample by the radii.
        let mut y: Vec<i128> = Vec::new();
        let mut k: usize = 0;
        while k < dim
            invariant
                0 <= k <= dim,
                u@.len() == dim,
                forall|j: int| 0 <= j < dim ==> -1000 <= #[trigger] u@[j] <= 1000,
                0 <= r1 <= 8_000_000_000_000_000,
                0 <= r2 <= 8_000_000_000_000_000,
                y@.len() == k,
                forall|j: int|
                    0 <= j < k ==> -8_000_000_000_000_000_000 <= #[trigger] y@[j]
                        <= 8_000_000_000_000_000_000,
            decreases dim - k,
        {
            let rad: i64 = if k == 0 {
                r1
            } else {
                r2
            };
            proof {
                crate::geom::lemma_abs_mul_le(
                    rad as int,
                    u@[k as int] as int,
                    8_000_000_000_000_000,
                    1000,
                );
            }
            let prod: i128 = (rad as i128) * (u[k] as i128);
            y.push(prod);
            k = k + 1;
        }
        // Project the scaled sample onto the reflection axis.
        let mut wy: i128 = 0;
        let mut k2: usize = 0;
        while k2 < dim
            invariant
                0 <= k2 <= dim,
                dim <= crate::geom::MAX_DIM,
                y@.len() == dim,
                self.rotation_axis@.len() == dim,
                forall|j: int|
                    0 <= j < dim ==> -16_000_000 <= #[trigger] self.rotation_axis@[j]
                        <= 16_000_000,
                forall|j: int|
                    0 <= j < dim ==> -8_000_000_000_000_000_000 <= #[trigger] y@[j]
                        <= 8_000_000_000_000_000_000,
                -(k2 as int) * 128_000_000_000_000_000_000_000_000 <= wy as int <= (k2 as int)
                    * 128_000_000_000_000_000_000_000_000,
            decreases dim - k2,
        {
            proof {
                crate::geom::lemma_abs_mul_le(
                    self.rotation_axis@[k2 as int] as int,
                    y@[k2 as int] as int,
                    16_000_000,
                    8_000_000_000_000_000_000,
                );
            }
            let t: i128 = (self.rotation_axis[k2] as i128) * y[k2];
            wy = wy + t;
            k2 = k2 + 1;
        }
        assert(-2_048_000_000_000_000_000_000_000_000 <= wy as int
            <= 2_048_000_000_000_000_000_000_000_000);
        // Reflect, rescale and translate each coordinate, rejecting
        // any draw that leaves the coordinate range.
        let mut x: Vec<i64> = Vec::new();
        let mut k3: usize = 0;
        while k3 < dim
            invariant
                0 <= k3 <= dim,
                y@.len() == dim,
                self.rotation_axis@.len() == dim,
                self.center@.len() == dim,
                in_limits(self.center@),
                forall|j: int|
                    0 <= j < dim ==> -16_000_000 <= #[trigger] self.rotation_axis@[j]
                        <= 16_000_000,
                forall|j: int|
                    0 <= j < dim ==> -8_000_000_000_000_000_000 <= #[trigger] y@[j]
                        <= 8_000_000_000_000_000_000,
                -2_048_000_000_000_000_000_000_000_000 <= wy as int
                    <= 2_048_000_000_000_000_000_000_000_000,
                0 <= self.rotation_axis_sq <= 4_100_000_000_000_000,
                x@.len() == k3,
                in_limits(x@),
                *self == (InformedRRTStar { rng: self.rng, ..*old(self) }),
            decreases dim - k3,
        {
            let z: i128;
            if self.rotation_axis_sq > 0 {
                let wy2: i128 = 2 * wy;
                proof {
                    crate::geom::lemma_abs_mul_le(
                        wy2 as int,
                        self.rotation_axis@[k3 as int] as int,
                        4_096_000_000_000_000_000_000_000_000,
                        16_000_000,
                    );
                }
                let num: i128 = wy2 * (self.rotation_axis[k3] as i128);
                let q = crate::geom::div_trunc_i128(num, self.rotation_axis_sq as i128);
                z = y[k3] - q;
            } else {
                z = y[k3];
            }
            let zq = crate::geom::div_trunc_i128(z, 1000);
            let xc: i128 = (self.center[k3] as i128) + zq;
            if xc < -(COORD_LIMIT as i128) || xc > (COORD_LIMIT as i128) {
                return None;
            }
            x.push(xc as i64);
            k3 = k3 + 1;
        }
        // Exact membership check: a sample is informed only when its
        // focal-distance sum stays within the current best cost.
        proof {
            assert(self.start@.len() == dim && self.goal@.len() == dim);
            assert(in_limits(self.start@) && in_limits(self.goal@));
        }
        let ds = crate::geom::dist_points(&x, &self.start);
        let dg = crate::geom::dist_points(&x, &self.goal);
        if ds + dg <= self.cost_max {
            Some(x)
        } else {
            None
        }
    }

    /// A sample from the informed ellipsoid: every returned point's
    /// focal-distance sum (to start and goal) is at most the cost of
    /// the current best goal connection. `None` means no acceptable
    /// draw was found within the attempt budget; the caller skips
    /// the iteration.
    pub fn sample_from_informed_elipse(&mut self) -> (r: Option<Vec<i64>>)
        requires
            old(self).inv(),
            old(self).goal_node_index != 0,
        ensures
            *final(self) == (InformedRRTStar { rng: final(self).rng, ..*old(self) }),
            r matches Some(x) ==> x@.len() == old(self).nodes.dim && in_limits(x@) && dist(
                x@,
                old(self).start@,
            ) + dist(x@, old(self).goal@) <= old(self).cost_max,
    {
        let mut attempt: usize = 0;
        while attempt < 64
            invariant
                *self == (InformedRRTStar { rng: self.rng, ..*old(self) }),
                old(self).inv(),
                old(self).goal_node_index != 0,
                0 <= attempt <= 64,
            decreases 64 - attempt,
        {
            let got = self.try_informed_sample();
            match got {
                Some(x) => {
                    return Some(x);
                },
                None => {},
            }
            attempt = attempt + 1;
        }
        None
    }

    /// The positions along the tree path from the start to the
    /// current goal node; just the start position while no goal
    /// connection exists.
    pub fn extract_path(&self) -> (r: Vec<Vec<i64>>)
        requires
            self.inv_core(),
        ensures
            r@.len() == self.nodes.path_to(self.goal_node_index as int).len(),
            forall|k: int|
                0 <= k < r@.len() ==> (#[trigger] r@[k])@ == self.nodes.path_to(
                    self.goal_node_index as int,
                )[k],
    {
        self.nodes.extract_path_to(self.goal_node_index)
    }
    /// One accepted planning step: steers the sampled point to
    /// within one step of the tree, discards it if infeasible, else
    /// attaches it to the cost-minimizing parent within one step,
    /// connects the goal on first contact, rewires the neighborhood
    /// and refreshes `cost_max`. Returns whether a goal connection
    /// now exists.
    #[verifier::rlimit(100)]
    #[verifier::spinoff_prover]
    fn grow_step(&mut self, sampled: Vec<i64>, already_goaled: bool) -> (goaled: bool)
        requires
            old(self).inv(),
            already_goaled <==> old(self).goal_node_index != 0,
            old(self).nodes.count() + 2 <= NODE_LIMIT,
            sampled@.len() == old(self).nodes.dim,
            in_limits(sampled@),
        ensures
            final(self).inv(),
            final(self).nodes.count() <= old(self).nodes.count() + 2,
            final(self).start == old(self).start,
            final(self).goal == old(self).goal,
            final(self).low == old(self).low,
            final(self).high == old(self).high,
            final(self).center == old(self).center,
            final(self).cost_min == old(self).cost_min,
            final(self).rotation_axis == old(self).rotation_axis,
            final(self).rotation_axis_sq == old(self).rotation_axis_sq,
            final(self).is_approved == old(self).is_approved,
            final(self).goal_sample_rate == old(self).goal_sample_rate,
            final(self).step_size == old(self).step_size,
            final(self).max_iter == old(self).max_iter,
            final(self).is_logging_enabled == old(self).is_logging_enabled,
            goaled <==> final(self).goal_node_index != 0,
            old(self).goal_node_index != 0 ==> final(self).goal_node_index == old(
                self,
            ).goal_node_index && final(self).cost_max <= old(self).cost_max,
            final(self).goal_node_index == old(self).goal_node_index
                || final(self).goal_node_index != 0,
    {
        let mut goaled = already_goaled;
        let mut new_node_pos = sampled;
        assert(new_node_pos@.len() == self.nodes.dim && in_limits(new_node_pos@));
        // Walk to the nearest node and steer when too
        // far.
        let nearest_node_index = self.nodes.nearest(&new_node_pos);
        proof {
            assert(self.nodes.pos(nearest_node_index as int).len() == self.nodes.dim
                && in_limits(self.nodes.pos(nearest_node_index as int)));
        }
        let nsq = crate::geom::sq_dist_points(
            &self.nodes.get(nearest_node_index).position,
            &new_node_pos,
        );
        let ss: i128 = crate::geom::square_i128(self.step_size);
        if ss < (nsq as i128) {
            let steered = crate::geom::steer_points(
                &self.nodes.get(nearest_node_index).position,
                &new_node_pos,
                self.step_size,
            );
            new_node_pos = steered;
        }
        assert(sq_dist(self.nodes.pos(nearest_node_index as int), new_node_pos@)
            <= self.step_size * self.step_size);
        assert(new_node_pos@.len() == self.nodes.dim && in_limits(new_node_pos@));
        // Discard infeasible candidates.
        let probe = new_node_pos.clone();
        let ghost probe_v = probe;
        let ghost cv = new_node_pos@;
        proof {
            assert(probe_v@ =~= cv);
        }
        if (self.is_approved)(probe) {
            proof {
                assert(call_ensures(self.is_approved, (probe_v,), true));
                assert(approved_view(self.is_approved, cv));
            }
            // Attach the candidate to the cost-minimizing
            // parent within one step; the nearest node
            // qualifies, so one exists.
            let cand_node = Node::new(new_node_pos);
            proof {
                crate::geom::lemma_sq_dist_sym(
                    self.nodes.pos(nearest_node_index as int),
                    cv,
                );
                assert(sq_dist(
                    self.nodes.pos(nearest_node_index as int),
                    cand_node.position@,
                ) <= self.step_size * self.step_size);
            }
            let parent_node_index = self.get_parent_node_index_minimize_cost(
                &cand_node,
            );
            proof {
                assert(sq_dist(
                    self.nodes.pos(parent_node_index as int),
                    cand_node.position@,
                ) <= self.step_size * self.step_size);
            }
            let new_node_index = self.add_node(cand_node, parent_node_index);
            // On first contact, attach a goal node;
            // afterwards keep sampling to improve the
            // path.
            let gsq = crate::geom::sq_dist_points(
                &self.nodes.get(new_node_index).position,
                &self.goal,
            );
            if !already_goaled && (gsq as i128) <= ss {
                let gclone = self.goal.clone();
                proof {
                    assert(gclone@ =~= self.goal@);
                }
                let goal_node_index = self.add_node(
                    Node::new(gclone),
                    new_node_index,
                );
                self.goal_node_index = goal_node_index;
                goaled = true;
            }
            // Rewire nodes near the new node through it
            // whenever that lowers their cost.
            let new_node_ref = self.nodes.get(new_node_index);
            let near_node_indices = self.nodes.near_indices(
                &new_node_ref.position,
                self.step_size,
            );
            proof {
                assert forall|k2: int|
                    0 <= k2 < near_node_indices@.len() implies sq_dist(
                    self.nodes.pos(new_node_index as int),
                    self.nodes.pos((#[trigger] near_node_indices@[k2]) as int),
                ) <= self.step_size * self.step_size by {
                    crate::geom::lemma_sq_dist_sym(
                        self.nodes.pos(near_node_indices@[k2] as int),
                        self.nodes.pos(new_node_index as int),
                    );
                }
            }
            self.rewire_near_nodes(near_node_indices, new_node_index);
            // Keep `cost_max` the cost of the best goal
            // connection.
            if self.goal_node_index != 0 {
                self.cost_max = self.nodes.get(self.goal_node_index).cost;
            }
            if self.is_logging_enabled {
                let snapshot = self.nodes.nodes.clone();
                self.log.push(snapshot);
            }
        }

        goaled
    }

    /// Runs the informed planning loop for the full iteration
    /// budget. Until a goal connection exists this is the optimizing
    /// planner's loop with cost-minimizing parent selection; once
    /// one exists, samples come from the informed ellipsoid and
    /// `cost_max` tracks the (only ever falling) cost of the goal
    /// connection. A non-empty result is a path from start to goal
    /// with every consecutive pair within one step and every
    /// position feasible (or the start or goal itself); an empty
    /// result means no goal connection was found.
    #[verifier::rlimit(100)]
    #[verifier::spinoff_prover]
    pub fn plan(&mut self) -> (r: Vec<Vec<i64>>)
        requires
            old(self).inv(),
            old(self).nodes.count() + 2 * old(self).max_iter <= NODE_LIMIT,
        ensures
            final(self).inv(),
            final(self).nodes.count() <= old(self).nodes.count() + 2 * old(self).max_iter,
            old(self).max_iter == 0 ==> *final(self) == *old(self),
            old(self).max_iter == 0 && old(self).goal_node_index == 0 ==> r@.len() == 0,
            forall|k: int| 0 <= k < r@.len() ==> (#[trigger] r@[k])@.len() == old(self).nodes.dim,
            final(self).start == old(self).start,
            final(self).goal == old(self).goal,
            final(self).low == old(self).low,
            final(self).high == old(self).high,
            final(self).center == old(self).center,
            final(self).cost_min == old(self).cost_min,
            final(self).rotation_axis == old(self).rotation_axis,
            final(self).rotation_axis_sq == old(self).rotation_axis_sq,
            final(self).is_approved == old(self).is_approved,
            final(self).goal_sample_rate == old(self).goal_sample_rate,
            final(self).step_size == old(self).step_size,
            final(self).max_iter == old(self).max_iter,
            old(self).goal_node_index != 0 ==> final(self).goal_node_index == old(
                self,
            ).goal_node_index && final(self).cost_max <= old(self).cost_max,
            r@.len() > 0 <==> final(self).goal_node_index != 0,
            r@.len() > 0 ==> r@.len() >= 2 && (r@[0])@ == old(self).start@ && (r@[r@.len()
                - 1])@ == old(self).goal@,
            forall|k: int|
                0 <= k < r@.len() - 1 ==> dist((#[trigger] r@[k])@, (r@[k + 1])@) <= old(
                    self,
                ).step_size,
            forall|k: int|
                0 <= k < r@.len() ==> (#[trigger] r@[k])@ == old(self).start@ || (r@[k])@ == old(
                    self,
                ).goal@ || approved_view(old(self).is_approved, (r@[k])@),
    {
        let mut it: usize = 0;
        let max_iter = self.max_iter;
        let mut is_goaled = self.goal_node_index != 0;
        while it < max_iter
            invariant
                self.inv(),
                self.start == old(self).start,
                self.goal == old(self).goal,
                self.low == old(self).low,
                self.high == old(self).high,
                self.center == old(self).center,
                self.cost_min == old(self).cost_min,
                self.rotation_axis == old(self).rotation_axis,
                self.rotation_axis_sq == old(self).rotation_axis_sq,
                self.is_approved == old(self).is_approved,
                self.goal_sample_rate == old(self).goal_sample_rate,
                self.step_size == old(self).step_size,
                self.max_iter == old(self).max_iter,
                max_iter == old(self).max_iter,
                0 <= it <= max_iter,
                self.nodes.count() <= old(self).nodes.count() + 2 * it,
                self.nodes.dim == old(self).nodes.dim,
                old(self).nodes.count() + 2 * old(self).max_iter <= NODE_LIMIT,
                max_iter == 0 ==> *self == *old(self),
                is_goaled <==> self.goal_node_index != 0,
                old(self).goal_node_index != 0 ==> self.goal_node_index == old(
                    self,
                ).goal_node_index && self.cost_max <= old(self).cost_max,
                self.goal_node_index == old(self).goal_node_index || self.goal_node_index != 0,
            decreases max_iter - it,
        {
            // Sample a candidate: from the informed ellipsoid once a
            // goal connection exists, else goal-biased uniform.
            let mut cand_opt: Option<Vec<i64>> = None;
            if is_goaled {
                cand_opt = self.sample_from_informed_elipse();
            } else {
                let draw = self.rng.next_below(1000);
                if (draw as u32) < self.goal_sample_rate {
                    let g = self.goal.clone();
                    proof {
                        assert(g@ =~= self.goal@);
                    }
                    cand_opt = Some(g);
                } else {
                    cand_opt = Some(sample_point(&mut self.rng, &self.low, &self.high));
                }
            }
            match cand_opt {
                None => {},
                Some(sampled) => {
                    is_goaled = self.grow_step(sampled, is_goaled);
                },
            }
            it = it + 1;
        }
        if self.goal_node_index == 0 {
            return Vec::new();
        }
        let path = self.extract_path();
        proof {
            let g = self.goal_node_index as int;
            self.nodes.lemma_path_props(g);
            self.nodes.lemma_path_edges(g, self.step_size as int);
            assert(self.nodes.depth_of(g) >= 1);
            assert((path@[0])@ == self.start@);
            assert((path@[path@.len() - 1])@ == self.goal@);
            assert forall|k: int|
                0 <= k < path@.len() - 1 implies dist((#[trigger] path@[k])@, (path@[k + 1])@)
                <= self.step_size by {
                assert(path@[k]@ == self.nodes.path_to(g)[k]);
                assert(path@[k + 1]@ == self.nodes.path_to(g)[k + 1]);
            }
            assert forall|k: int|
                0 <= k < path@.len() implies (#[trigger] path@[k])@.len() == old(
                self,
            ).nodes.dim by {
                assert(path@[k]@ == self.nodes.path_to(g)[k]);
                let i = choose|i: int|
                    0 <= i < self.nodes.count() && self.nodes.path_to(g)[k] == self.nodes.pos(i);
                assert(self.nodes.pos(i).len() == self.nodes.dim);
            }
            assert forall|k: int|
                0 <= k < path@.len() implies (#[trigger] path@[k])@ == old(self).start@ || (
            path@[k])@ == old(self).goal@ || approved_view(
                old(self).is_approved,
                (path@[k])@,
            ) by {
                assert(path@[k]@ == self.nodes.path_to(g)[k]);
                let i = choose|i: int|
                    0 <= i < self.nodes.count() && self.nodes.path_to(g)[k] == self.nodes.pos(i);
                assert(self.nodes.pos(i) == self.start@ || self.nodes.pos(i) == self.goal@
                    || approved_view(self.is_approved, self.nodes.pos(i)));
            }
        }
        path
    }
}

impl<F: Fn(Vec<i64>) -> bool> AbstractRRT for InformedRRTStar<F> {
    open spec fn low_spec(&self) -> Vec<i64> {
        self.low
    }

    open spec fn high_spec(&self) -> Vec<i64> {
        self.high
    }

    open spec fn goal_spec(&self) -> Vec<i64> {
        self.goal
    }

    open spec fn step_size_spec(&self) -> i64 {
        self.step_size
    }

    open spec fn goal_node_index_spec(&self) -> usize {
        self.goal_node_index
    }

    open spec fn nodes_spec(&self) -> Vec<Node> {
        self.nodes.nodes
    }

    fn get_low(&self) -> (r: &Vec<i64>) {
        &self.low
    }

    fn get_high(&self) -> (r: &Vec<i64>) {
        &self.high
    }

    fn get_goal(&self) -> (r: &Vec<i64>) {
        &self.goal
    }

    fn get_step_size(&self) -> (r: i64) {
        self.step_size
    }

    fn get_goal_node_index(&self) -> (r: usize) {
        self.goal_node_index
    }

    fn get_nodes(&self) -> (r: &Vec<Node>) {
        &self.nodes.nodes
    }
}

} // verus!
