use vstd::prelude::*;

use crate::geom::{dist, in_limits, sq_dist, NODE_LIMIT};
use crate::planner::config::{config_error_of, validate_config, ConfigError};
use crate::planner::node::Node;
use crate::planner::rrt::AbstractRRT;
use crate::planner::tree::{approved_view, lemma_tree_grow, planner_tree_ok, Tree};
use crate::rng::{sample_point, RandomSource};

verus! {

/// The cost-optimizing tree planner: like the basic planner it grows
/// a tree toward random samples, but it keeps sampling after the
/// first goal connection and locally rewires the tree whenever a new
/// node offers a cheaper connection, so path costs fall over time.
pub struct RRTStar<F: Fn(Vec<i64>) -> bool> {
    pub start: Vec<i64>,
    pub goal: Vec<i64>,
    pub low: Vec<i64>,
    pub high: Vec<i64>,
    pub nodes: Tree,
    pub is_approved: F,
    pub goal_sample_rate: u32,
    pub step_size: i64,
    pub max_iter: usize,
    pub goal_node_index: usize,
    pub is_logging_enabled: bool,
    pub log: Vec<Vec<Node>>,
    pub rng: RandomSource,
}

impl<F: Fn(Vec<i64>) -> bool> RRTStar<F> {
    /// The planner's invariant; see the basic planner.
    pub open spec fn inv(&self) -> bool {
        &&& config_error_of(
            self.start@,
            self.goal@,
            self.low@,
            self.high@,
            self.goal_sample_rate,
            self.step_size,
        ) is None
        &&& planner_tree_ok(self.nodes, self.start@, self.goal@, self.step_size, self.is_approved)
        &&& self.goal_node_index == 0 || (0 < self.goal_node_index < self.nodes.count()
            && self.nodes.pos(self.goal_node_index as int) == self.goal@)
        &&& forall|v: Vec<i64>| call_requires(self.is_approved, (v,))
    }

    /// Builds a planner; see the basic planner for the parameters.
    pub fn new(
        start: Vec<i64>,
        goal: Vec<i64>,
        low: Vec<i64>,
        high: Vec<i64>,
        is_approved: F,
        goal_sample_rate: u32,
        step_size: i64,
        max_iter: usize,
        seed: u64,
    ) -> (r: Result<RRTStar<F>, ConfigError>)
        requires
            forall|v: Vec<i64>| call_requires(is_approved, (v,)),
        ensures
            match r {
                Result::Ok(p) => {
                    &&& config_error_of(start@, goal@, low@, high@, goal_sample_rate, step_size)
                        is None
                    &&& p.inv()
                    &&& p.start@ == start@
                    &&& p.goal@ == goal@
                    &&& p.low@ == low@
                    &&& p.high@ == high@
                    &&& p.is_approved == is_approved
                    &&& p.goal_sample_rate == goal_sample_rate
                    &&& p.step_size == step_size
                    &&& p.max_iter == max_iter
                    &&& p.nodes.count() == 1
                    &&& p.goal_node_index == 0
                    &&& !p.is_logging_enabled
                    &&& p.log@.len() == 0
                },
                Result::Err(e) => config_error_of(
                    start@,
                    goal@,
                    low@,
                    high@,
                    goal_sample_rate,
                    step_size,
                ) == Some(e),
            },
    {
        match validate_config(&start, &goal, &low, &high, goal_sample_rate, step_size) {
            Some(e) => Err(e),
            None => {
                let tree = Tree::new(start.clone());
                let p = RRTStar {
                    start,
                    goal,
                    low,
                    high,
                    nodes: tree,
                    is_approved,
                    goal_sample_rate,
                    step_size,
                    max_iter,
                    goal_node_index: 0,
                    is_logging_enabled: false,
                    log: Vec::new(),
                    rng: RandomSource::from_seed(seed),
                };
                proof {
                    assert(p.nodes.pos(0) == p.start@);
                    assert forall|i: int|
                        0 <= i < p.nodes.count() implies #[trigger] p.nodes.pos(i) == p.start@
                        || p.nodes.pos(i) == p.goal@ || approved_view(
                        p.is_approved,
                        p.nodes.pos(i),
                    ) by {}
                }
                Ok(p)
            },
        }
    }

    /// Switches on per-iteration snapshots of the node arena.
    pub fn enable_logging(&mut self)
        ensures
            final(self).is_logging_enabled,
            final(self).start == old(self).start,
            final(self).goal == old(self).goal,
            final(self).low == old(self).low,
            final(self).high == old(self).high,
            final(self).nodes == old(self).nodes,
            final(self).is_approved == old(self).is_approved,
            final(self).goal_sample_rate == old(self).goal_sample_rate,
            final(self).step_size == old(self).step_size,
            final(self).max_iter == old(self).max_iter,
            final(self).goal_node_index == old(self).goal_node_index,
            final(self).log == old(self).log,
            old(self).inv() ==> final(self).inv(),
    {
        self.is_logging_enabled = true;
    }

    /// Attaches `new_node`'s position as a child of the node at
    /// `parent_node_index`; the new node's cost extends its parent's
    /// by the connecting edge's distance. The planner invariant is
    /// preserved when the edge stays within one step and the
    /// position is the start, the goal, or accepted by the
    /// feasibility predicate.
    pub fn add_node(&mut self, new_node: Node, parent_node_index: usize) -> (idx: usize)
        requires
            old(self).inv(),
            parent_node_index < old(self).nodes.count(),
            old(self).nodes.count() < NODE_LIMIT,
            new_node.position@.len() == old(self).nodes.dim,
            in_limits(new_node.position@),
        ensures
            idx == old(self).nodes.count(),
            final(self).nodes.wf(),
            final(self).nodes.count() == old(self).nodes.count() + 1,
            final(self).nodes.dim == old(self).nodes.dim,
            forall|i: int|
                0 <= i < old(self).nodes.count() ==> final(self).nodes.pos(i) == old(
                    self,
                ).nodes.pos(i),
            forall|i: int|
                0 <= i < old(self).nodes.count() ==> final(self).nodes.parent_of(i) == old(
                    self,
                ).nodes.parent_of(i),
            forall|i: int|
                0 <= i < old(self).nodes.count() ==> final(self).nodes.cost_of(i) == old(
                    self,
                ).nodes.cost_of(i),
            final(self).nodes.pos(idx as int) == new_node.position@,
            final(self).nodes.par(idx as int) == parent_node_index,
            final(self).nodes.cost_of(idx as int) == old(self).nodes.cost_of(
                parent_node_index as int,
            ) + dist(old(self).nodes.pos(parent_node_index as int), new_node.position@),
            final(self).start == old(self).start,
            final(self).goal == old(self).goal,
            final(self).low == old(self).low,
            final(self).high == old(self).high,
            final(self).is_approved == old(self).is_approved,
            final(self).goal_sample_rate == old(self).goal_sample_rate,
            final(self).step_size == old(self).step_size,
            final(self).max_iter == old(self).max_iter,
            final(self).goal_node_index == old(self).goal_node_index,
            final(self).is_logging_enabled == old(self).is_logging_enabled,
            final(self).log == old(self).log,
            final(self).rng == old(self).rng,
            sq_dist(
                old(self).nodes.pos(parent_node_index as int),
                new_node.position@,
            ) <= old(self).step_size * old(self).step_size && (new_node.position@ == old(
                self,
            ).start@ || new_node.position@ == old(self).goal@ || approved_view(
                old(self).is_approved,
                new_node.position@,
            )) ==> final(self).inv(),
    {
        let ghost t0 = self.nodes;
        let idx = self.nodes.add_node(new_node.position, parent_node_index);
        proof {
            let cv = self.nodes.pos(idx as int);
            assert(cv == new_node.position@);
            if sq_dist(t0.pos(parent_node_index as int), cv) <= self.step_size * self.step_size
                && (cv == self.start@ || cv == self.goal@ || approved_view(
                self.is_approved,
                cv,
            )) {
                lemma_tree_grow(
                    t0,
                    self.nodes,
                    self.start@,
                    self.goal@,
                    self.step_size,
                    self.is_approved,
                    parent_node_index as int,
                    idx as int,
                    cv,
                );
                if self.goal_node_index != 0 {
                    assert(self.nodes.pos(self.goal_node_index as int) == t0.pos(
                        self.goal_node_index as int,
                    ));
                }
            }
        }
        idx
    }

    /// The index of the node that minimizes the cost a new node at
    /// `new_node`'s position would get with it as parent, i.e.
    /// `cost + distance`; among equal costs the first-seen index
    /// wins.
    pub fn get_parent_node_index_minimize_cost(&self, new_node: &Node) -> (r: usize)
        requires
            self.inv(),
            new_node.position@.len() == self.nodes.dim,
            in_limits(new_node.position@),
        ensures
            r < self.nodes.count(),
            forall|j: int|
                0 <= j < self.nodes.count() ==> self.nodes.cost_of(r as int) + dist(
                    self.nodes.pos(r as int),
                    new_node.position@,
                ) <= self.nodes.cost_of(j) + dist(#[trigger] self.nodes.pos(j), new_node.position@),
            forall|j: int|
                0 <= j < r ==> self.nodes.cost_of(j) + dist(
                    #[trigger] self.nodes.pos(j),
                    new_node.position@,
                ) > self.nodes.cost_of(r as int) + dist(self.nodes.pos(r as int), new_node.position@),
    {
        self.nodes.min_cost_parent(&new_node.position)
    }

    /// The indices of all nodes within one step of `node`, in
    /// increasing order.
    pub fn get_near_node_indices(&self, node: &Node) -> (v: Vec<usize>)
        requires
            self.inv(),
            node.position@.len() == self.nodes.dim,
            in_limits(node.position@),
        ensures
            forall|k1: int, k2: int| 0 <= k1 < k2 < v@.len() ==> v@[k1] < v@[k2],
            forall|k: int|
                0 <= k < v@.len() ==> ((#[trigger] v@[k]) as int) < self.nodes.count() && sq_dist(
                    self.nodes.pos(v@[k] as int),
                    node.position@,
                ) <= self.step_size * self.step_size,
            forall|j: int|
                0 <= j < self.nodes.count() && sq_dist(#[trigger] self.nodes.pos(j), node.position@)
                    <= self.step_size * self.step_size ==> v@.contains(j as usize),
    {
        self.nodes.near_indices(&node.position, self.step_size)
    }

    /// For each listed node, reparents it to the node at
    /// `new_node_index` whenever that lowers its cost, propagating
    /// the change through its subtree. No cost ever rises, so the
    /// cost of an established goal connection only improves.
    pub fn rewire_near_nodes(&mut self, near_node_indices: Vec<usize>, new_node_index: usize)
        requires
            old(self).inv(),
            new_node_index < old(self).nodes.count(),
            forall|k: int|
                0 <= k < near_node_indices@.len() ==> ((#[trigger] near_node_indices@[k]) as int)
                    < old(self).nodes.count(),
            forall|k: int|
                0 <= k < near_node_indices@.len() ==> sq_dist(
                    old(self).nodes.pos(new_node_index as int),
                    old(self).nodes.pos((#[trigger] near_node_indices@[k]) as int),
                ) <= old(self).step_size * old(self).step_size,
        ensures
            final(self).inv(),
            final(self).nodes.count() == old(self).nodes.count(),
            final(self).nodes.dim == old(self).nodes.dim,
            forall|i: int|
                0 <= i < old(self).nodes.count() ==> final(self).nodes.pos(i) == old(
                    self,
                ).nodes.pos(i),
            forall|i: int|
                0 <= i < old(self).nodes.count() ==> final(self).nodes.cost_of(i) <= old(
                    self,
                ).nodes.cost_of(i),
            forall|i: int|
                0 <= i < old(self).nodes.count() ==> final(self).nodes.parent_of(i) == old(
                    self,
                ).nodes.parent_of(i) || (near_node_indices@.contains(i as usize)
                    && final(self).nodes.par(i) == new_node_index),
            final(self).start == old(self).start,
            final(self).goal == old(self).goal,
            final(self).low == old(self).low,
            final(self).high == old(self).high,
            final(self).is_approved == old(self).is_approved,
            final(self).goal_sample_rate == old(self).goal_sample_rate,
            final(self).step_size == old(self).step_size,
            final(self).max_iter == old(self).max_iter,
            final(self).goal_node_index == old(self).goal_node_index,
            final(self).is_logging_enabled == old(self).is_logging_enabled,
            final(self).log == old(self).log,
            final(self).rng == old(self).rng,
            final(self).nodes.cost_of(new_node_index as int) == old(self).nodes.cost_of(
                new_node_index as int,
            ),
            forall|k: int|
                0 <= k < near_node_indices@.len() ==> final(self).nodes.cost_of(
                    (#[trigger] near_node_indices@[k]) as int,
                ) <= old(self).nodes.cost_of(new_node_index as int) + dist(
                    old(self).nodes.pos(new_node_index as int),
                    old(self).nodes.pos(near_node_indices@[k] as int),
                ),
            forall|i: int|
                0 <= i < old(self).nodes.count() && final(self).nodes.parent_of(i) != old(
                    self,
                ).nodes.parent_of(i) ==> final(self).nodes.par(i) == new_node_index
                    && final(self).nodes.cost_of(i) == old(self).nodes.cost_of(
                    new_node_index as int,
                ) + dist(
                    old(self).nodes.pos(new_node_index as int),
                    old(self).nodes.pos(i),
                ) && old(self).nodes.cost_of(new_node_index as int) + dist(
                    old(self).nodes.pos(new_node_index as int),
                    old(self).nodes.pos(i),
                ) < old(self).nodes.cost_of(i),
    {
        let ghost t0 = self.nodes;
        self.nodes.rewire_from_list(&near_node_indices, new_node_index);
        proof {
            // Edges stay within one step: an unchanged parent keeps
            // its old edge, and a reparented node now hangs off the
            // new node, which the precondition puts within one step.
            assert forall|i: int|
                1 <= i < self.nodes.count() implies sq_dist(
                self.nodes.pos(self.nodes.par(i)),
                #[trigger] self.nodes.pos(i),
            ) <= self.step_size * self.step_size by {
                if self.nodes.parent_of(i) == t0.parent_of(i) {
                    assert(self.nodes.par(i) == t0.par(i));
                    assert(sq_dist(t0.pos(t0.par(i)), t0.pos(i)) <= self.step_size
                        * self.step_size);
                } else {
                    assert(near_node_indices@.contains(i as usize) && self.nodes.par(i)
                        == new_node_index);
                    let kk = choose|kk: int|
                        0 <= kk < near_node_indices@.len() && near_node_indices@[kk]
                            == i as usize;
                    assert(sq_dist(
                        t0.pos(new_node_index as int),
                        t0.pos((near_node_indices@[kk]) as int),
                    ) <= self.step_size * self.step_size);
                }
            }
            assert forall|i: int|
                0 <= i < self.nodes.count() implies #[trigger] self.nodes.pos(i) == self.start@
                || self.nodes.pos(i) == self.goal@ || approved_view(
                self.is_approved,
                self.nodes.pos(i),
            ) by {
                assert(self.nodes.pos(i) == t0.pos(i));
                assert(t0.pos(i) == self.start@ || t0.pos(i) == self.goal@ || approved_view(
                    self.is_approved,
                    t0.pos(i),
                ));
            }
            if self.goal_node_index != 0 {
                assert(self.nodes.pos(self.goal_node_index as int) == t0.pos(
                    self.goal_node_index as int,
                ));
            }
        }
    }



    /// A node at a position drawn uniformly from the sampling box.
    pub fn sample(&mut self) -> (n: Node)
        requires
            old(self).inv(),
        ensures
            *final(self) == (RRTStar { rng: final(self).rng, ..*old(self) }),
            n.position@.len() == old(self).nodes.dim,
            forall|k: int|
                0 <= k < n.position@.len() ==> old(self).low@[k] <= #[trigger] n.position@[k]
                    < old(self).high@[k],
            in_limits(n.position@),
            n.parent is None,
            n.children@.len() == 0,
            n.cost == 0,
    {
        let p = sample_point(&mut self.rng, &self.low, &self.high);
        Node::new(p)
    }

    /// The index of the tree node nearest to `node`, by squared
    /// Euclidean distance with first-seen tie-breaking.
    pub fn get_nearest_node_index(&self, node: &Node) -> (r: usize)
        requires
            self.inv(),
            node.position@.len() == self.nodes.dim,
            in_limits(node.position@),
        ensures
            r < self.nodes.count(),
            forall|j: int|
                0 <= j < self.nodes.count() ==> sq_dist(self.nodes.pos(r as int), node.position@)
                    <= sq_dist(#[trigger] self.nodes.pos(j), node.position@),
            forall|j: int|
                0 <= j < r ==> sq_dist(#[trigger] self.nodes.pos(j), node.position@) > sq_dist(
                    self.nodes.pos(r as int),
                    node.position@,
                ),
    {
        self.nodes.nearest(&node.position)
    }

    /// A node one step from `nearest_node` in the direction of
    /// `new_node`; meaningful only when `new_node` lies farther away
    /// than one step.
    pub fn get_extended_node(&self, nearest_node: &Node, new_node: &Node) -> (n: Node)
        requires
            self.inv(),
            nearest_node.position@.len() == self.nodes.dim,
            new_node.position@.len() == self.nodes.dim,
            in_limits(nearest_node.position@),
            in_limits(new_node.position@),
            sq_dist(nearest_node.position@, new_node.position@) > self.step_size
                * self.step_size,
        ensures
            n.position@.len() == self.nodes.dim,
            in_limits(n.position@),
            sq_dist(nearest_node.position@, n.position@) <= self.step_size * self.step_size,
            dist(nearest_node.position@, n.position@) <= self.step_size,
            forall|k: int|
                0 <= k < n.position@.len() ==> #[trigger] n.position@[k]
                    == nearest_node.position@[k] + crate::geom::steer_offset(
                    new_node.position@[k] - nearest_node.position@[k],
                    self.step_size as int,
                    sq_dist(nearest_node.position@, new_node.position@),
                ),
            n.parent is None,
            n.children@.len() == 0,
            n.cost == 0,
    {
        let p = crate::geom::steer_points(
            &nearest_node.position,
            &new_node.position,
            self.step_size,
        );
        Node::new(p)
    }

    /// Whether `node` lies within one step of the goal.
    pub fn is_near_goal(&self, node: &Node) -> (r: bool)
        requires
            self.inv(),
            node.position@.len() == self.nodes.dim,
            in_limits(node.position@),
        ensures
            r == (sq_dist(node.position@, self.goal@) <= self.step_size * self.step_size),
    {
        let s = crate::geom::sq_dist_points(&node.position, &self.goal);
        let ss: i128 = crate::geom::square_i128(self.step_size);
        (s as i128) <= ss
    }

    /// The positions along the tree path from the start to the
    /// current goal node; just the start position while no goal
    /// connection exists.
    pub fn extract_path(&self) -> (r: Vec<Vec<i64>>)
        requires
            self.inv(),
        ensures
            r@.len() == self.nodes.path_to(self.goal_node_index as int).len(),
            forall|k: int|
                0 <= k < r@.len() ==> (#[trigger] r@[k])@ == self.nodes.path_to(
                    self.goal_node_index as int,
                )[k],
    {
        self.nodes.extract_path_to(self.goal_node_index)
    }

    /// One planning step of the optimizing planner: steers
    /// `sampled` to within one step of the tree, discards it if
    /// infeasible, else attaches it to its nearest node, connects
    /// the goal on first contact, and rewires the neighborhood of
    /// the new node, which can only lower costs. Returns whether a
    /// goal connection now exists.
    #[verifier::rlimit(100)]
    #[verifier::spinoff_prover]
    fn grow_step(&mut self, sampled: Vec<i64>, already_goaled: bool) -> (goaled: bool)
        requires
            old(self).inv(),
            already_goaled <==> old(self).goal_node_index != 0,
            old(self).nodes.count() + 2 <= NODE_LIMIT,
            sampled@.len() == old(self).nodes.dim,
            in_limits(sampled@),
        ensures
            final(self).inv(),
            final(self).nodes.count() <= old(self).nodes.count() + 2,
            final(self).nodes.dim == old(self).nodes.dim,
            final(self).start == old(self).start,
            final(self).goal == old(self).goal,
            final(self).low == old(self).low,
            final(self).high == old(self).high,
            final(self).is_approved == old(self).is_approved,
            final(self).goal_sample_rate == old(self).goal_sample_rate,
            final(self).step_size == old(self).step_size,
            final(self).max_iter == old(self).max_iter,
            final(self).is_logging_enabled == old(self).is_logging_enabled,
            goaled <==> final(self).goal_node_index != 0,
            final(self).goal_node_index == old(self).goal_node_index
                || final(self).goal_node_index != 0,
            old(self).goal_node_index != 0 ==> final(self).goal_node_index == old(
                self,
            ).goal_node_index && final(self).nodes.cost_of(final(self).goal_node_index as int)
                <= old(self).nodes.cost_of(old(self).goal_node_index as int),
    {
        let mut goaled = already_goaled;
        let mut new_node_pos = sampled;
        // Walk to the nearest node and steer when too far.
        let nearest_node_index = self.nodes.nearest(&new_node_pos);
        proof {
            assert(self.nodes.pos(nearest_node_index as int).len() == self.nodes.dim
                && in_limits(self.nodes.pos(nearest_node_index as int)));
        }
        let nsq = crate::geom::sq_dist_points(
            &self.nodes.get(nearest_node_index).position,
            &new_node_pos,
        );
        let ss: i128 = crate::geom::square_i128(self.step_size);
        if ss < (nsq as i128) {
            let steered = crate::geom::steer_points(
                &self.nodes.get(nearest_node_index).position,
                &new_node_pos,
                self.step_size,
            );
            new_node_pos = steered;
        }
        assert(sq_dist(self.nodes.pos(nearest_node_index as int), new_node_pos@)
            <= self.step_size * self.step_size);
        assert(new_node_pos@.len() == self.nodes.dim && in_limits(new_node_pos@));
        // Discard infeasible candidates.
        let probe = new_node_pos.clone();
        let ghost probe_v = probe;
        let ghost cv = new_node_pos@;
        proof {
            assert(probe_v@ =~= cv);
        }
        if (self.is_approved)(probe) {
            proof {
                assert(call_ensures(self.is_approved, (probe_v,), true));
                assert(approved_view(self.is_approved, cv));
            }
            // Attach the candidate to the nearest node.
            let new_node_index = self.add_node(Node::new(new_node_pos), nearest_node_index);
            // On first contact, attach a goal node; afterwards keep
            // sampling to improve the path.
            let gsq = crate::geom::sq_dist_points(
                &self.nodes.get(new_node_index).position,
                &self.goal,
            );
            if !goaled && (gsq as i128) <= ss {
                let gclone = self.goal.clone();
                proof {
                    assert(gclone@ =~= self.goal@);
                }
                let goal_node_index = self.add_node(Node::new(gclone), new_node_index);
                self.goal_node_index = goal_node_index;
                goaled = true;
            }
            // Rewire nodes near the new node through it whenever
            // that lowers their cost.
            let new_node_ref = self.nodes.get(new_node_index);
            let near_node_indices = self.nodes.near_indices(
                &new_node_ref.position,
                self.step_size,
            );
            proof {
                assert forall|k2: int|
                    0 <= k2 < near_node_indices@.len() implies sq_dist(
                    self.nodes.pos(new_node_index as int),
                    self.nodes.pos((#[trigger] near_node_indices@[k2]) as int),
                ) <= self.step_size * self.step_size by {
                    crate::geom::lemma_sq_dist_sym(
                        self.nodes.pos(near_node_indices@[k2] as int),
                        self.nodes.pos(new_node_index as int),
                    );
                }
            }
            self.rewire_near_nodes(near_node_indices, new_node_index);
            if self.is_logging_enabled {
                let snapshot = self.nodes.nodes.clone();
                self.log.push(snapshot);
            }
        }
        goaled
    }

    /// Runs the optimizing planning loop for the full iteration
    /// budget: the first node within one step of the goal gets a
    /// goal node attached, and later samples keep rewiring the tree,
    /// which can only lower costs. A non-empty result is a path from
    /// start to goal with every consecutive pair within one step and
    /// every position feasible (or the start or goal itself); an
    /// empty result means no goal connection was found. A repeated
    /// call resumes with the existing goal connection: no second
    /// goal node is attached, and the connection's cost only falls.
    #[verifier::rlimit(100)]
    #[verifier::spinoff_prover]
    pub fn plan(&mut self) -> (r: Vec<Vec<i64>>)
        requires
            old(self).inv(),
            old(self).nodes.count() + 2 * old(self).max_iter <= NODE_LIMIT,
        ensures
            final(self).inv(),
            final(self).start == old(self).start,
            final(self).goal == old(self).goal,
            final(self).low == old(self).low,
            final(self).high == old(self).high,
            final(self).is_approved == old(self).is_approved,
            final(self).goal_sample_rate == old(self).goal_sample_rate,
            final(self).step_size == old(self).step_size,
            final(self).max_iter == old(self).max_iter,
            final(self).nodes.count() <= old(self).nodes.count() + 2 * old(self).max_iter,
            old(self).max_iter == 0 ==> *final(self) == *old(self),
            old(self).max_iter == 0 && old(self).goal_node_index == 0 ==> r@.len() == 0,
            old(self).goal_node_index != 0 ==> final(self).goal_node_index == old(
                self,
            ).goal_node_index && final(self).nodes.cost_of(final(self).goal_node_index as int)
                <= old(self).nodes.cost_of(old(self).goal_node_index as int),
            forall|k: int| 0 <= k < r@.len() ==> (#[trigger] r@[k])@.len() == old(self).nodes.dim,
            r@.len() > 0 <==> final(self).goal_node_index != 0,
            r@.len() > 0 ==> r@.len() >= 2 && (r@[0])@ == old(self).start@ && (r@[r@.len()
                - 1])@ == old(self).goal@,
            forall|k: int|
                0 <= k < r@.len() - 1 ==> dist((#[trigger] r@[k])@, (r@[k + 1])@) <= old(
                    self,
                ).step_size,
            forall|k: int|
                0 <= k < r@.len() ==> (#[trigger] r@[k])@ == old(self).start@ || (r@[k])@ == old(
                    self,
                ).goal@ || approved_view(old(self).is_approved, (r@[k])@),
    {
        let mut it: usize = 0;
        let max_iter = self.max_iter;
        let mut is_goaled = self.goal_node_index != 0;
        while it < max_iter
            invariant
                self.inv(),
                self.start == old(self).start,
                self.goal == old(self).goal,
                self.low == old(self).low,
                self.high == old(self).high,
                self.is_approved == old(self).is_approved,
                self.goal_sample_rate == old(self).goal_sample_rate,
                self.step_size == old(self).step_size,
                self.max_iter == old(self).max_iter,
                max_iter == old(self).max_iter,
                0 <= it <= max_iter,
                self.nodes.count() <= old(self).nodes.count() + 2 * it,
                self.nodes.dim == old(self).nodes.dim,
                old(self).nodes.count() + 2 * old(self).max_iter <= NODE_LIMIT,
                max_iter == 0 ==> *self == *old(self),
                is_goaled <==> self.goal_node_index != 0,
                self.goal_node_index == old(self).goal_node_index || self.goal_node_index != 0,
                old(self).goal_node_index != 0 ==> self.goal_node_index == old(
                    self,
                ).goal_node_index && self.nodes.cost_of(self.goal_node_index as int) <= old(
                    self,
                ).nodes.cost_of(old(self).goal_node_index as int),
            decreases max_iter - it,
        {
            // Sample a candidate, biased toward the goal.
            let draw = self.rng.next_below(1000);
            let mut new_node_pos: Vec<i64>;
            if (draw as u32) < self.goal_sample_rate {
                new_node_pos = self.goal.clone();
                proof {
                    assert(new_node_pos@ =~= self.goal@);
                }
            } else {
                new_node_pos = sample_point(&mut self.rng, &self.low, &self.high);
            }
            assert(new_node_pos@.len() == self.nodes.dim && in_limits(new_node_pos@));
            is_goaled = self.grow_step(new_node_pos, is_goaled);
            it = it + 1;
        }
        if self.goal_node_index == 0 {
            return Vec::new();
        }
        let path = self.extract_path();
        proof {
            let g = self.goal_node_index as int;
            self.nodes.lemma_path_props(g);
            self.nodes.lemma_path_edges(g, self.step_size as int);
            assert(self.nodes.depth_of(g) >= 1);
            assert((path@[0])@ == self.start@);
            assert((path@[path@.len() - 1])@ == self.goal@);
            assert forall|k: int|
                0 <= k < path@.len() - 1 implies dist((#[trigger] path@[k])@, (path@[k + 1])@)
                <= self.step_size by {
                assert(path@[k]@ == self.nodes.path_to(g)[k]);
                assert(path@[k + 1]@ == self.nodes.path_to(g)[k + 1]);
            }
            assert forall|k: int|
                0 <= k < path@.len() implies (#[trigger] path@[k])@.len() == old(
                self,
            ).nodes.dim by {
                assert(path@[k]@ == self.nodes.path_to(g)[k]);
                let i = choose|i: int|
                    0 <= i < self.nodes.count() && self.nodes.path_to(g)[k] == self.nodes.pos(i);
                assert(self.nodes.pos(i).len() == self.nodes.dim);
            }
            assert forall|k: int|
                0 <= k < path@.len() implies (#[trigger] path@[k])@ == old(self).start@ || (
            path@[k])@ == old(self).goal@ || approved_view(
                old(self).is_approved,
                (path@[k])@,
            ) by {
                assert(path@[k]@ == self.nodes.path_to(g)[k]);
                let i = choose|i: int|
                    0 <= i < self.nodes.count() && self.nodes.path_to(g)[k] == self.nodes.pos(i);
                assert(self.nodes.pos(i) == self.start@ || self.nodes.pos(i) == self.goal@
                    || approved_view(self.is_approved, self.nodes.pos(i)));
            }
        }
        path
    }
}

impl<F: Fn(Vec<i64>) -> bool> AbstractRRT for RRTStar<F> {
    open spec fn low_spec(&self) -> Vec<i64> {
        self.low
    }

    open spec fn high_spec(&self) -> Vec<i64> {
        self.high
    }

    open spec fn goal_spec(&self) -> Vec<i64> {
        self.goal
    }

    open spec fn step_size_spec(&self) -> i64 {
        self.step_size
    }

    open spec fn goal_node_index_spec(&self) -> usize {
        self.goal_node_index
    }

    open spec fn nodes_spec(&self) -> Vec<Node> {
        self.nodes.nodes
    }

    fn get_low(&self) -> (r: &Vec<i64>) {
        &self.low
    }

    fn get_high(&self) -> (r: &Vec<i64>) {
        &self.high
    }

    fn get_goal(&self) -> (r: &Vec<i64>) {
        &self.goal
    }

    fn get_step_size(&self) -> (r: i64) {
        self.step_size
    }

    fn get_goal_node_index(&self) -> (r: usize) {
        self.goal_node_index
    }

    fn get_nodes(&self) -> (r: &Vec<Node>) {
        &self.nodes.nodes
    }
}

} // verus!
