use vstd::prelude::*;

use crate::geom::{dist, in_limits, sq_dist, NODE_LIMIT};
use crate::planner::config::{config_error_of, validate_config, ConfigError};
use crate::planner::node::Node;
use crate::planner::tree::{approved_view, planner_tree_ok, Tree};
use crate::rng::{sample_point, RandomSource};

verus! {

/// What every tree planner exposes: its sampling bounds, goal, step
/// size, current goal connection and node arena.
pub trait AbstractRRT {
    /// The lower corner of the sampling box.
    spec fn low_spec(&self) -> Vec<i64>;

    /// The upper corner of the sampling box.
    spec fn high_spec(&self) -> Vec<i64>;

    /// The goal position.
    spec fn goal_spec(&self) -> Vec<i64>;

    /// The maximum edge length.
    spec fn step_size_spec(&self) -> i64;

    /// The index of the current goal node, 0 when none exists.
    spec fn goal_node_index_spec(&self) -> usize;

    /// The node arena.
    spec fn nodes_spec(&self) -> Vec<Node>;

    fn get_low(&self) -> (r: &Vec<i64>)
        ensures
            *r == self.low_spec(),
    ;

    fn get_high(&self) -> (r: &Vec<i64>)
        ensures
            *r == self.high_spec(),
    ;

    fn get_goal(&self) -> (r: &Vec<i64>)
        ensures
            *r == self.goal_spec(),
    ;

    fn get_step_size(&self) -> (r: i64)
        ensures
            r == self.step_size_spec(),
    ;

    fn get_goal_node_index(&self) -> (r: usize)
        ensures
            r == self.goal_node_index_spec(),
    ;

    fn get_nodes(&self) -> (r: &Vec<Node>)
        ensures
            *r == self.nodes_spec(),
    ;
}

/// The basic tree planner: grows a tree from the start position
/// toward random, goal-biased samples until a node lands within one
/// step of the goal or the iteration budget runs out.
pub struct RRT<F: Fn(Vec<i64>) -> bool> {
    pub start: Vec<i64>,
    pub goal: Vec<i64>,
    pub low: Vec<i64>,
    pub high: Vec<i64>,
    pub nodes: Tree,
    pub is_approved: F,
    pub goal_sample_rate: u32,
    pub step_size: i64,
    pub max_iter: usize,
    pub goal_node_index: usize,
    pub is_logging_enabled: bool,
    pub log: Vec<Vec<Node>>,
    pub rng: RandomSource,
}

impl<F: Fn(Vec<i64>) -> bool> RRT<F> {
    /// The planner's invariant: valid parameters, a tree in planner
    /// shape, a goal connection index that is either absent (0) or a
    /// node at the goal, and a feasibility predicate that may be
    /// called on any position.
    pub open spec fn inv(&self) -> bool {
        &&& config_error_of(
            self.start@,
            self.goal@,
            self.low@,
            self.high@,
            self.goal_sample_rate,
            self.step_size,
        ) is None
        &&& planner_tree_ok(self.nodes, self.start@, self.goal@, self.step_size, self.is_approved)
        &&& self.goal_node_index == 0 || (0 < self.goal_node_index < self.nodes.count()
            && self.nodes.pos(self.goal_node_index as int) == self.goal@)
        &&& forall|v: Vec<i64>| call_requires(self.is_approved, (v,))
    }

    /// All fields except the random source agree between two planner
    /// states.
    pub open spec fn same_but_rng(a: &Self, b: &Self) -> bool {
        &&& a.start == b.start
        &&& a.goal == b.goal
        &&& a.low == b.low
        &&& a.high == b.high
        &&& a.nodes == b.nodes
        &&& a.is_approved == b.is_approved
        &&& a.goal_sample_rate == b.goal_sample_rate
        &&& a.step_size == b.step_size
        &&& a.max_iter == b.max_iter
        &&& a.goal_node_index == b.goal_node_index
        &&& a.is_logging_enabled == b.is_logging_enabled
        &&& a.log == b.log
    }

    /// Builds a planner over the box `[low, high]` with the given
    /// feasibility predicate, goal-bias rate (in thousandths), step
    /// size, iteration budget and random seed; reports the first
    /// violated parameter constraint instead.
    pub fn new(
        start: Vec<i64>,
        goal: Vec<i64>,
        low: Vec<i64>,
        high: Vec<i64>,
        is_approved: F,
        goal_sample_rate: u32,
        step_size: i64,
        max_iter: usize,
        seed: u64,
    ) -> (r: Result<RRT<F>, ConfigError>)
        requires
            forall|v: Vec<i64>| call_requires(is_approved, (v,)),
        ensures
            match r {
                Result::Ok(p) => {
                    &&& config_error_of(start@, goal@, low@, high@, goal_sample_rate, step_size)
                        is None
                    &&& p.inv()
                    &&& p.start@ == start@
                    &&& p.goal@ == goal@
                    &&& p.low@ == low@
                    &&& p.high@ == high@
                    &&& p.is_approved == is_approved
                    &&& p.goal_sample_rate == goal_sample_rate
                    &&& p.step_size == step_size
                    &&& p.max_iter == max_iter
                    &&& p.nodes.count() == 1
                    &&& p.goal_node_index == 0
                    &&& !p.is_logging_enabled
                    &&& p.log@.len() == 0
                },
                Result::Err(e) => config_error_of(
                    start@,
                    goal@,
                    low@,
                    high@,
                    goal_sample_rate,
                    step_size,
                ) == Some(e),
            },
    {
        match validate_config(&start, &goal, &low, &high, goal_sample_rate, step_size) {
            Some(e) => Err(e),
            None => {
                let tree = Tree::new(start.clone());
                let p = RRT {
                    start,
                    goal,
                    low,
                    high,
                    nodes: tree,
                    is_approved,
                    goal_sample_rate,
                    step_size,
                    max_iter,
                    goal_node_index: 0,
                    is_logging_enabled: false,
                    log: Vec::new(),
                    rng: RandomSource::from_seed(seed),
                };
                proof {
                    assert(p.nodes.pos(0) == p.start@);
                    assert forall|i: int|
                        0 <= i < p.nodes.count() implies #[trigger] p.nodes.pos(i) == p.start@
                        || p.nodes.pos(i) == p.goal@ || approved_view(
                        p.is_approved,
                        p.nodes.pos(i),
                    ) by {}
                }
                Ok(p)
            },
        }
    }

    /// Switches on per-iteration snapshots of the node arena.
    pub fn enable_logging(&mut self)
        ensures
            final(self).is_logging_enabled,
            final(self).start == old(self).start,
            final(self).goal == old(self).goal,
            final(self).low == old(self).low,
            final(self).high == old(self).high,
            final(self).nodes == old(self).nodes,
            final(self).is_approved == old(self).is_approved,
            final(self).goal_sample_rate == old(self).goal_sample_rate,
            final(self).step_size == old(self).step_size,
            final(self).max_iter == old(self).max_iter,
            final(self).goal_node_index == old(self).goal_node_index,
            final(self).log == old(self).log,
            old(self).inv() ==> final(self).inv(),
    {
        self.is_logging_enabled = true;
    }

    /// A node at a position drawn uniformly from the sampling box.
    pub fn sample(&mut self) -> (n: Node)
        requires
            old(self).inv(),
        ensures
            Self::same_but_rng(old(self), final(self)),
            final(self).inv(),
            n.position@.len() == old(self).nodes.dim,
            forall|k: int|
                0 <= k < n.position@.len() ==> old(self).low@[k] <= #[trigger] n.position@[k]
                    < old(self).high@[k],
            in_limits(n.position@),
            n.parent is None,
            n.children@.len() == 0,
            n.cost == 0,
    {
        let p = sample_point(&mut self.rng, &self.low, &self.high);
        Node::new(p)
    }

    /// The index of the tree node nearest to `node`, by squared
    /// Euclidean distance with first-seen tie-breaking.
    pub fn get_nearest_node_index(&self, node: &Node) -> (r: usize)
        requires
            self.inv(),
            node.position@.len() == self.nodes.dim,
            in_limits(node.position@),
        ensures
            r < self.nodes.count(),
            forall|j: int|
                0 <= j < self.nodes.count() ==> sq_dist(self.nodes.pos(r as int), node.position@)
                    <= sq_dist(#[trigger] self.nodes.pos(j), node.position@),
            forall|j: int|
                0 <= j < r ==> sq_dist(#[trigger] self.nodes.pos(j), node.position@) > sq_dist(
                    self.nodes.pos(r as int),
                    node.position@,
                ),
    {
        self.nodes.nearest(&node.position)
    }

    /// A node one step from `nearest_node` in the direction of
    /// `new_node`; meaningful only when `new_node` lies farther away
    /// than one step.
    pub fn get_extended_node(&self, nearest_node: &Node, new_node: &Node) -> (n: Node)
        requires
            self.inv(),
            nearest_node.position@.len() == self.nodes.dim,
            new_node.position@.len() == self.nodes.dim,
            in_limits(nearest_node.position@),
            in_limits(new_node.position@),
            sq_dist(nearest_node.position@, new_node.position@) > self.step_size
                * self.step_size,
        ensures
            n.position@.len() == self.nodes.dim,
            in_limits(n.position@),
            sq_dist(nearest_node.position@, n.position@) <= self.step_size * self.step_size,
            dist(nearest_node.position@, n.position@) <= self.step_size,
            forall|k: int|
                0 <= k < n.position@.len() ==> #[trigger] n.position@[k]
                    == nearest_node.position@[k] + crate::geom::steer_offset(
                    new_node.position@[k] - nearest_node.position@[k],
                    self.step_size as int,
                    sq_dist(nearest_node.position@, new_node.position@),
                ),
            n.parent is None,
            n.children@.len() == 0,
            n.cost == 0,
    {
        let p = crate::geom::steer_points(
            &nearest_node.position,
            &new_node.position,
            self.step_size,
        );
        Node::new(p)
    }

    /// Whether `node` lies within one step of the goal.
    pub fn is_near_goal(&self, node: &Node) -> (r: bool)
        requires
            self.inv(),
            node.position@.len() == self.nodes.dim,
            in_limits(node.position@),
        ensures
            r == (sq_dist(node.position@, self.goal@) <= self.step_size * self.step_size),
    {
        let s = crate::geom::sq_dist_points(&node.position, &self.goal);
        let ss: i128 = crate::geom::square_i128(self.step_size);
        (s as i128) <= ss
    }

    /// The positions along the tree path from the start to the
    /// current goal node; just the start position while no goal
    /// connection exists.
    pub fn extract_path(&self) -> (r: Vec<Vec<i64>>)
        requires
            self.inv(),
        ensures
            r@.len() == self.nodes.path_to(self.goal_node_index as int).len(),
            forall|k: int|
                0 <= k < r@.len() ==> (#[trigger] r@[k])@ == self.nodes.path_to(
                    self.goal_node_index as int,
                )[k],
    {
        self.nodes.extract_path_to(self.goal_node_index)
    }

    /// One planning step: steers `sampled` to within one step of
    /// the tree, discards it if the feasibility predicate rejects
    /// it, else attaches it to its nearest node and, when it lands
    /// within one step of the goal, attaches a goal node as its
    /// child and records the goal connection. Returns whether the
    /// goal was reached.
    #[verifier::rlimit(100)]
    #[verifier::spinoff_prover]
    fn grow_step(&mut self, sampled: Vec<i64>) -> (goaled: bool)
        requires
            old(self).inv(),
            old(self).nodes.count() + 2 <= NODE_LIMIT,
            sampled@.len() == old(self).nodes.dim,
            in_limits(sampled@),
        ensures
            final(self).inv(),
            final(self).nodes.count() <= old(self).nodes.count() + 2,
            final(self).nodes.dim == old(self).nodes.dim,
            final(self).start == old(self).start,
            final(self).goal == old(self).goal,
            final(self).low == old(self).low,
            final(self).high == old(self).high,
            final(self).is_approved == old(self).is_approved,
            final(self).goal_sample_rate == old(self).goal_sample_rate,
            final(self).step_size == old(self).step_size,
            final(self).max_iter == old(self).max_iter,
            final(self).is_logging_enabled == old(self).is_logging_enabled,
            !goaled ==> final(self).goal_node_index == old(self).goal_node_index,
            goaled ==> final(self).goal_node_index != 0,
            forall|i: int|
                0 <= i < old(self).nodes.count() ==> final(self).nodes.parent_of(i) == old(
                    self,
                ).nodes.parent_of(i),
            forall|i: int|
                old(self).nodes.count() <= i < final(self).nodes.count()
                    ==> #[trigger] final(self).nodes.par(i) < i,
    {
        let ghost self0 = *self;
        let mut new_node_pos = sampled;
        // Walk to the nearest node and steer when too far.
        let nearest_node_index = self.nodes.nearest(&new_node_pos);
        proof {
            assert(self.nodes.pos(nearest_node_index as int).len() == self.nodes.dim
                && in_limits(self.nodes.pos(nearest_node_index as int)));
        }
        let nsq = crate::geom::sq_dist_points(
            &self.nodes.get(nearest_node_index).position,
            &new_node_pos,
        );
        let ss: i128 = crate::geom::square_i128(self.step_size);
        if ss < (nsq as i128) {
            let steered = crate::geom::steer_points(
                &self.nodes.get(nearest_node_index).position,
                &new_node_pos,
                self.step_size,
            );
            new_node_pos = steered;
        }
        assert(sq_dist(self.nodes.pos(nearest_node_index as int), new_node_pos@)
            <= self.step_size * self.step_size);
        assert(new_node_pos@.len() == self.nodes.dim && in_limits(new_node_pos@));
        // Discard infeasible candidates.
        let probe = new_node_pos.clone();
        let ghost probe_v = probe;
        let ghost cv = new_node_pos@;
        proof {
            assert(probe_v@ =~= cv);
        }
        let mut is_goaled = false;
        if (self.is_approved)(probe) {
            proof {
                assert(call_ensures(self.is_approved, (probe_v,), true));
                assert(approved_view(self.is_approved, cv));
            }
            // Attach the candidate to the nearest node.
            let new_node_index = self.nodes.add_node(new_node_pos, nearest_node_index);
            proof {
                crate::planner::tree::lemma_tree_grow(
                    self0.nodes,
                    self.nodes,
                    self.start@,
                    self.goal@,
                    self.step_size,
                    self.is_approved,
                    nearest_node_index as int,
                    new_node_index as int,
                    cv,
                );
            }
            let gsq = crate::geom::sq_dist_points(
                &self.nodes.get(new_node_index).position,
                &self.goal,
            );
            if (gsq as i128) <= ss {
                // The new node reaches the goal: attach a goal node
                // as its child.
                let ghost tree1 = self.nodes;
                let gclone = self.goal.clone();
                proof {
                    assert(gclone@ =~= self.goal@);
                }
                let goal_node_index = self.nodes.add_node(gclone, new_node_index);
                self.goal_node_index = goal_node_index;
                is_goaled = true;
                proof {
                    crate::planner::tree::lemma_tree_grow(
                        tree1,
                        self.nodes,
                        self.start@,
                        self.goal@,
                        self.step_size,
                        self.is_approved,
                        new_node_index as int,
                        goal_node_index as int,
                        self.goal@,
                    );
                }
            }
            if self.is_logging_enabled {
                let snapshot = self.nodes.nodes.clone();
                self.log.push(snapshot);
            }
            proof {
                // Nodes added in this step hang off earlier nodes,
                // so parents stay below their children.
                assert forall|i: int|
                    self0.nodes.count() <= i < self.nodes.count()
                        implies #[trigger] self.nodes.par(i) < i by {}
            }
        }
        is_goaled
    }

    /// Runs the planning loop for up to `max_iter` iterations. A
    /// non-empty result is a path from the start to the goal whose
    /// consecutive positions lie at most one step apart and whose
    /// every position was accepted by the feasibility predicate (or
    /// is the start or goal itself); an empty result means no goal
    /// connection was found within the budget.
    ///
    /// The behavior when the start equals the goal is deliberately
    /// left open: the loop simply treats the goal like any other
    /// candidate, so such a search may return a two-point path of
    /// identical positions.
    #[verifier::rlimit(100)]
    #[verifier::spinoff_prover]
    pub fn plan(&mut self) -> (r: Vec<Vec<i64>>)
        requires
            old(self).inv(),
            old(self).nodes.count() + 2 * old(self).max_iter <= NODE_LIMIT,
        ensures
            final(self).inv(),
            final(self).start == old(self).start,
            final(self).goal == old(self).goal,
            final(self).low == old(self).low,
            final(self).high == old(self).high,
            final(self).is_approved == old(self).is_approved,
            final(self).goal_sample_rate == old(self).goal_sample_rate,
            final(self).step_size == old(self).step_size,
            final(self).max_iter == old(self).max_iter,
            final(self).nodes.count() <= old(self).nodes.count() + 2 * old(self).max_iter,
            old(self).max_iter == 0 ==> r@.len() == 0 && *final(self) == *old(self),
            r@.len() > 0 ==> final(self).goal_node_index != 0,
            old(self).goal_node_index == 0 ==> (r@.len() > 0 <==> final(self).goal_node_index
                != 0),
            forall|i: int|
                old(self).nodes.count() <= i < final(self).nodes.count()
                    ==> #[trigger] final(self).nodes.par(i) < i,
            forall|k: int| 0 <= k < r@.len() ==> (#[trigger] r@[k])@.len() == old(self).nodes.dim,
            r@.len() > 0 ==> r@.len() >= 2 && (r@[0])@ == old(self).start@ && (r@[r@.len()
                - 1])@ == old(self).goal@,
            forall|k: int|
                0 <= k < r@.len() - 1 ==> dist((#[trigger] r@[k])@, (r@[k + 1])@) <= old(
                    self,
                ).step_size,
            forall|k: int|
                0 <= k < r@.len() ==> (#[trigger] r@[k])@ == old(self).start@ || (r@[k])@ == old(
                    self,
                ).goal@ || approved_view(old(self).is_approved, (r@[k])@),
    {
        let mut it: usize = 0;
        let max_iter = self.max_iter;
        while it < max_iter
            invariant
                self.inv(),
                self.start == old(self).start,
                self.goal == old(self).goal,
                self.low == old(self).low,
                self.high == old(self).high,
                self.is_approved == old(self).is_approved,
                self.goal_sample_rate == old(self).goal_sample_rate,
                self.step_size == old(self).step_size,
                self.max_iter == old(self).max_iter,
                max_iter == old(self).max_iter,
                0 <= it <= max_iter,
                self.nodes.count() <= old(self).nodes.count() + 2 * it,
                old(self).nodes.count() + 2 * old(self).max_iter <= NODE_LIMIT,
                max_iter == 0 ==> *self == *old(self),
                self.goal_node_index == old(self).goal_node_index,
                self.nodes.dim == old(self).nodes.dim,
                forall|i: int|
                    old(self).nodes.count() <= i < self.nodes.count()
                        ==> #[trigger] self.nodes.par(i) < i,
            decreases max_iter - it,
        {
            let ghost sh = *self;
            proof {
                assert(crate::planner::config::dims_ok(
                    self.start@,
                    self.goal@,
                    self.low@,
                    self.high@,
                ));
                assert(crate::planner::config::coords_ok(
                    self.start@,
                    self.goal@,
                    self.low@,
                    self.high@,
                ));
                assert(crate::planner::config::bounds_ok(self.low@, self.high@));
                assert(self.step_size >= 1);
            }
            // Sample a candidate, biased toward the goal.
            let draw = self.rng.next_below(1000);
            let mut new_node_pos: Vec<i64>;
            if (draw as u32) < self.goal_sample_rate {
                new_node_pos = self.goal.clone();
                proof {
                    assert(new_node_pos@ =~= self.goal@);
                }
            } else {
                new_node_pos = sample_point(&mut self.rng, &self.low, &self.high);
            }
            assert(new_node_pos@.len() == self.nodes.dim && in_limits(new_node_pos@));
            let goaled = self.grow_step(new_node_pos);
            proof {
                assert forall|i: int|
                    old(self).nodes.count() <= i < self.nodes.count()
                        implies #[trigger] self.nodes.par(i) < i by {
                    if i < sh.nodes.count() {
                        assert(self.nodes.parent_of(i) == sh.nodes.parent_of(i));
                        assert(sh.nodes.par(i) < i);
                    }
                }
            }
            if goaled {
                proof {
                    assert(self.nodes.count() <= old(self).nodes.count() + 2 * old(
                        self,
                    ).max_iter);
                }
                let path = self.extract_path();
                proof {
                    let g = self.goal_node_index as int;
                    self.nodes.lemma_path_props(g);
                    self.nodes.lemma_path_edges(g, self.step_size as int);
                    assert(self.nodes.depth_of(g) >= 1);
                    assert((path@[0])@ == self.start@);
                    assert((path@[path@.len() - 1])@ == self.goal@);
                    assert forall|k: int|
                        0 <= k < path@.len() implies (#[trigger] path@[k])@.len() == old(
                        self,
                    ).nodes.dim by {
                        assert(path@[k]@ == self.nodes.path_to(g)[k]);
                        let i = choose|i: int|
                            0 <= i < self.nodes.count() && self.nodes.path_to(g)[k]
                                == self.nodes.pos(i);
                        assert(self.nodes.pos(i).len() == self.nodes.dim);
                    }
                    assert forall|k: int|
                        0 <= k < path@.len() - 1 implies dist(
                        (#[trigger] path@[k])@,
                        (path@[k + 1])@,
                    ) <= self.step_size by {
                        assert(path@[k]@ == self.nodes.path_to(g)[k]);
                        assert(path@[k + 1]@ == self.nodes.path_to(g)[k + 1]);
                    }
                    assert forall|k: int|
                        0 <= k < path@.len() implies (#[trigger] path@[k])@ == old(
                        self,
                    ).start@ || (path@[k])@ == old(self).goal@ || approved_view(
                        old(self).is_approved,
                        (path@[k])@,
                    ) by {
                        assert(path@[k]@ == self.nodes.path_to(g)[k]);
                        let i = choose|i: int|
                            0 <= i < self.nodes.count() && self.nodes.path_to(g)[k]
                                == self.nodes.pos(i);
                        assert(self.nodes.pos(i) == self.start@ || self.nodes.pos(i)
                            == self.goal@ || approved_view(
                            self.is_approved,
                            self.nodes.pos(i),
                        ));
                    }
                }
                return path;
            }
            it = it + 1;
        }
        Vec::new()
    }
}

impl<F: Fn(Vec<i64>) -> bool> AbstractRRT for RRT<F> {
    open spec fn low_spec(&self) -> Vec<i64> {
        self.low
    }

    open spec fn high_spec(&self) -> Vec<i64> {
        self.high
    }

    open spec fn goal_spec(&self) -> Vec<i64> {
        self.goal
    }

    open spec fn step_size_spec(&self) -> i64 {
        self.step_size
    }

    open spec fn goal_node_index_spec(&self) -> usize {
        self.goal_node_index
    }

    open spec fn nodes_spec(&self) -> Vec<Node> {
        self.nodes.nodes
    }

    fn get_low(&self) -> (r: &Vec<i64>) {
        &self.low
    }

    fn get_high(&self) -> (r: &Vec<i64>) {
        &self.high
    }

    fn get_goal(&self) -> (r: &Vec<i64>) {
        &self.goal
    }

    fn get_step_size(&self) -> (r: i64) {
        self.step_size
    }

    fn get_goal_node_index(&self) -> (r: usize) {
        self.goal_node_index
    }

    fn get_nodes(&self) -> (r: &Vec<Node>) {
        &self.nodes.nodes
    }
}

} // verus!
