use vstd::prelude::*;

use crate::geom::{dist, in_limits, sq_dist, MAX_DIM, MAX_EDGE, NODE_LIMIT};
use crate::planner::node::Node;

verus! {

/// Membership in a sequence extended by one element.
proof fn lemma_push_contains<A>(s: Seq<A>, v: A, x: A)
    ensures
        s.push(v).contains(x) <==> (s.contains(x) || x == v),
{
    if s.push(v).contains(x) {
        let k = choose|k: int| 0 <= k < s.push(v).len() && s.push(v)[k] == x;
        if k < s.len() {
            assert(s[k] == x);
        }
    }
    if s.contains(x) {
        let k = choose|k: int| 0 <= k < s.len() && s[k] == x;
        assert(s.push(v)[k] == x);
    }
    if x == v {
        assert(s.push(v)[s.len() as int] == x);
    }
}

/// Some vector with view `s` is accepted by the feasibility
/// predicate `f`.
pub open spec fn approved_view<F: Fn(Vec<i64>) -> bool>(f: F, s: Seq<i64>) -> bool {
    exists|v: Vec<i64>| v@ == s && call_ensures(f, (v,), true)
}

/// The state a planner keeps its tree in: well-formed, rooted at the
/// start position, every edge within the step size (measured by
/// squared distance), and every node either at the start, at the
/// goal, or at a position the feasibility predicate accepted.
pub open spec fn planner_tree_ok<F: Fn(Vec<i64>) -> bool>(
    t: Tree,
    start: Seq<i64>,
    goal: Seq<i64>,
    step: i64,
    f: F,
) -> bool {
    &&& t.wf()
    &&& t.dim == start.len()
    &&& t.pos(0) == start
    &&& forall|i: int|
        1 <= i < t.count() ==> sq_dist(t.pos(t.par(i)), #[trigger] t.pos(i)) <= step * step
    &&& forall|i: int|
        0 <= i < t.count() ==> #[trigger] t.pos(i) == start || t.pos(i) == goal || approved_view(
            f,
            t.pos(i),
        )
}

/// Appending one in-range, feasible node within one step of its
/// parent keeps a tree in planner shape.
pub proof fn lemma_tree_grow<F: Fn(Vec<i64>) -> bool>(
    t0: Tree,
    t1: Tree,
    start: Seq<i64>,
    goal: Seq<i64>,
    step: i64,
    f: F,
    parent: int,
    idx: int,
    cv: Seq<i64>,
)
    requires
        planner_tree_ok(t0, start, goal, step, f),
        0 <= parent < t0.count(),
        idx == t0.count(),
        t1.wf(),
        t1.count() == t0.count() + 1,
        t1.dim == t0.dim,
        forall|i: int| 0 <= i < t0.count() ==> #[trigger] t1.pos(i) == t0.pos(i),
        forall|i: int| 0 <= i < t0.count() ==> #[trigger] t1.parent_of(i) == t0.parent_of(i),
        t1.pos(idx) == cv,
        t1.par(idx) == parent,
        sq_dist(t0.pos(parent), cv) <= step * step,
        cv == start || cv == goal || approved_view(f, cv),
    ensures
        planner_tree_ok(t1, start, goal, step, f),
{
    assert(t1.pos(0) == t0.pos(0));
    assert forall|i: int|
        1 <= i < t1.count() implies sq_dist(t1.pos(t1.par(i)), #[trigger] t1.pos(i)) <= step
        * step by {
        if i < t0.count() {
            assert(t1.parent_of(i) == t0.parent_of(i));
            assert(t1.par(i) == t0.par(i));
            assert(t1.pos(t0.par(i)) == t0.pos(t0.par(i)));
            assert(sq_dist(t0.pos(t0.par(i)), t0.pos(i)) <= step * step);
        } else {
            assert(t1.pos(t1.par(i)) == t0.pos(parent));
        }
    }
    assert forall|i: int|
        0 <= i < t1.count() implies #[trigger] t1.pos(i) == start || t1.pos(i) == goal
        || approved_view(f, t1.pos(i)) by {
        if i < t0.count() {
            assert(t0.pos(i) == start || t0.pos(i) == goal || approved_view(f, t0.pos(i)));
        }
    }
}

/// An append-only arena of nodes forming a single tree rooted at the
/// node with index 0. A node's index is its stable identity: nodes
/// are never removed, and rewiring changes parent and children
/// references but never an index. The ghost `depth` sequence carries
/// each node's distance (in edges) from the root; it is what makes
/// the absence of cycles a provable part of well-formedness.
pub struct Tree {
    pub nodes: Vec<Node>,
    pub dim: usize,
    pub depth: Ghost<Seq<nat>>,
}

impl Tree {
    /// Number of nodes.
    pub open spec fn count(&self) -> int {
        self.nodes@.len() as int
    }

    /// Position of node `i`.
    pub open spec fn pos(&self, i: int) -> Seq<i64> {
        self.nodes@[i].position@
    }

    /// Parent reference of node `i`.
    pub open spec fn parent_of(&self, i: int) -> Option<usize> {
        self.nodes@[i].parent
    }

    /// Parent index of node `i` (meaningful only for non-root nodes).
    pub open spec fn par(&self, i: int) -> int {
        match self.nodes@[i].parent {
            Option::Some(p) => p as int,
            Option::None => -1,
        }
    }

    /// Accumulated cost of node `i`.
    pub open spec fn cost_of(&self, i: int) -> int {
        self.nodes@[i].cost as int
    }

    /// Ghost depth of node `i`: its distance from the root in edges.
    pub open spec fn depth_of(&self, i: int) -> nat {
        self.depth@[i]
    }

    /// Child indices of node `i`.
    pub open spec fn kids(&self, i: int) -> Seq<usize> {
        self.nodes@[i].children@
    }

    /// The children list of node `i` holds exactly the nodes whose
    /// parent reference is `i`, each once.
    pub open spec fn kids_ok(&self, i: int) -> bool {
        &&& forall|k: int|
            0 <= k < self.kids(i).len() ==> 1 <= (#[trigger] self.kids(i)[k]) as int
        &&& forall|k: int|
            0 <= k < self.kids(i).len() ==> ((#[trigger] self.kids(i)[k]) as int) < self.count()
        &&& forall|k: int|
            0 <= k < self.kids(i).len() ==> self.par((#[trigger] self.kids(i)[k]) as int) == i
        &&& forall|k1: int, k2: int|
            0 <= k1 < k2 < self.kids(i).len() ==> self.kids(i)[k1] != self.kids(i)[k2]
        &&& forall|j: int|
            1 <= j < self.count() && self.par(j) == i ==> self.kids(i).contains(j as usize)
    }

    /// Well-formedness: the nodes form a single tree rooted at index
    /// 0. Every non-root node has a parent whose ghost depth is one
    /// smaller and whose cost precedes it by exactly the connecting
    /// edge's distance; children lists mirror the parent references;
    /// all positions share the tree's dimension and stay in
    /// coordinate range.
    pub open spec fn wf(&self) -> bool {
        &&& 1 <= self.count() <= NODE_LIMIT
        &&& self.depth@.len() == self.count()
        &&& 1 <= self.dim <= MAX_DIM
        &&& forall|i: int|
            0 <= i < self.count() ==> (#[trigger] self.pos(i)).len() == self.dim && in_limits(
                self.pos(i),
            )
        &&& self.parent_of(0) is None
        &&& self.cost_of(0) == 0
        &&& self.depth_of(0) == 0
        &&& forall|i: int| 1 <= i < self.count() ==> (#[trigger] self.parent_of(i)) is Some
        &&& forall|i: int| 1 <= i < self.count() ==> 0 <= #[trigger] self.par(i) < self.count()
        &&& forall|i: int|
            1 <= i < self.count() ==> #[trigger] self.depth_of(i) == self.depth_of(self.par(i))
                + 1
        &&& forall|i: int|
            1 <= i < self.count() ==> #[trigger] self.cost_of(i) == self.cost_of(self.par(i))
                + dist(self.pos(self.par(i)), self.pos(i))
        &&& forall|i: int| 0 <= i < self.count() ==> #[trigger] self.kids_ok(i)
    }

    /// Node `i` lies in the subtree rooted at `r`: following parent
    /// references from `i` reaches `r`.
    pub open spec fn in_subtree(&self, r: int, i: int) -> bool
        decreases self.depth_of(i)
            when self.wf() && 0 <= i < self.count() && 0 <= r < self.count()
    {
        if i == r {
            true
        } else if i == 0 {
            false
        } else {
            self.in_subtree(r, self.par(i))
        }
    }

    /// Depth never decreases when descending into a subtree.
    pub proof fn lemma_in_subtree_depth(&self, r: int, i: int)
        requires
            self.wf(),
            0 <= r < self.count(),
            0 <= i < self.count(),
            self.in_subtree(r, i),
        ensures
            self.depth_of(i) >= self.depth_of(r),
        decreases self.depth_of(i),
    {
        if i == r {
        } else {
            self.lemma_in_subtree_depth(r, self.par(i));
        }
    }

    /// Cost never decreases when descending into a subtree: each step
    /// down adds a non-negative edge distance.
    pub proof fn lemma_in_subtree_cost(&self, r: int, i: int)
        requires
            self.wf(),
            0 <= r < self.count(),
            0 <= i < self.count(),
            self.in_subtree(r, i),
        ensures
            self.cost_of(i) >= self.cost_of(r),
        decreases self.depth_of(i),
    {
        if i == r {
        } else {
            let p = self.par(i);
            self.lemma_in_subtree_cost(r, p);
            crate::geom::lemma_dist_basic(self.pos(p), self.pos(i));
        }
    }

    /// Every node lies in the subtree of the root.
    pub proof fn lemma_root_subtree(&self, i: int)
        requires
            self.wf(),
            0 <= i < self.count(),
        ensures
            self.in_subtree(0, i),
        decreases self.depth_of(i),
    {
        if i == 0 {
        } else {
            self.lemma_root_subtree(self.par(i));
        }
    }

    /// No node other than `r` itself can contain `r` in its subtree
    /// while lying in `r`'s subtree: the subtree order is
    /// antisymmetric, so no node is a proper ancestor of itself.
    pub proof fn lemma_subtree_antisymmetric(&self, r: int, i: int)
        requires
            self.wf(),
            0 <= r < self.count(),
            0 <= i < self.count(),
            self.in_subtree(r, i),
            self.in_subtree(i, r),
        ensures
            i == r,
    {
        self.lemma_in_subtree_depth(r, i);
        self.lemma_in_subtree_depth(i, r);
        if i != r {
            assert(self.depth_of(i) == self.depth_of(r));
            self.lemma_same_depth_subtree(r, i);
        }
    }

    /// Inside a subtree, only the root of the subtree has the root's
    /// depth.
    pub proof fn lemma_same_depth_subtree(&self, r: int, i: int)
        requires
            self.wf(),
            0 <= r < self.count(),
            0 <= i < self.count(),
            self.in_subtree(r, i),
            self.depth_of(i) == self.depth_of(r),
        ensures
            i == r,
        decreases self.depth_of(i),
    {
        if i != r {
            let p = self.par(i);
            self.lemma_in_subtree_depth(r, p);
        }
    }

    /// A set closed under the child step inside the subtree of `near`
    /// (it holds `near`, and a node whenever it holds the node's
    /// parent) covers node `j` of that subtree.
    proof fn lemma_subtree_closed(&self, near: int, p: Set<int>, j: int)
        requires
            self.wf(),
            0 <= near < self.count(),
            0 <= j < self.count(),
            self.in_subtree(near, j),
            forall|x: int|
                0 <= x < self.count() && self.in_subtree(near, x) ==> (#[trigger] p.contains(x)
                    <==> (x == near || p.contains(self.par(x)))),
        ensures
            p.contains(j),
        decreases self.depth_of(j),
    {
        if j == near {
            assert(p.contains(near) <==> (near == near || p.contains(self.par(near))));
        } else {
            self.lemma_subtree_closed(near, p, self.par(j));
        }
    }

    /// The ancestor of node `i` that lies `k` parent steps above it.
    pub open spec fn anc(&self, i: int, k: nat) -> int
        decreases k,
    {
        if k == 0 {
            i
        } else {
            self.par(self.anc(i, (k - 1) as nat))
        }
    }

    /// Walking `k <= depth(i)` parent steps up from node `i` stays
    /// inside the arena and lowers the depth by exactly `k`.
    pub proof fn lemma_anc_props(&self, i: int, k: nat)
        requires
            self.wf(),
            0 <= i < self.count(),
            k <= self.depth_of(i),
        ensures
            0 <= self.anc(i, k) < self.count(),
            self.depth_of(self.anc(i, k)) == self.depth_of(i) - k,
        decreases k,
    {
        if k == 0 {
        } else {
            self.lemma_anc_props(i, (k - 1) as nat);
            let a = self.anc(i, (k - 1) as nat);
            assert(self.depth_of(a) >= 1);
            assert(a != 0);
        }
    }

    /// The depth of every node is less than the number of nodes: the
    /// ancestors of a node are pairwise distinct, since their depths
    /// all differ.
    pub proof fn lemma_depth_lt_count(&self, i: int)
        requires
            self.wf(),
            0 <= i < self.count(),
        ensures
            self.depth_of(i) < self.count(),
    {
        let d = self.depth_of(i) as int;
        let s = Seq::<int>::new((d + 1) as nat, |k: int| self.anc(i, k as nat));
        assert forall|k: int| 0 <= k < s.len() implies 0 <= #[trigger] s[k] < self.count()
            && self.depth_of(s[k]) == d - k by {
            self.lemma_anc_props(i, k as nat);
        }
        assert(s.no_duplicates()) by {
            assert forall|k1: int, k2: int|
                0 <= k1 < s.len() && 0 <= k2 < s.len() && k1 != k2 implies s[k1] != s[k2] by {
                assert(self.depth_of(s[k1]) == d - k1);
                assert(self.depth_of(s[k2]) == d - k2);
            }
        }
        s.unique_seq_to_set();
        let range = vstd::set_lib::set_int_range(0, self.count());
        assert(s.to_set().subset_of(range)) by {
            assert forall|x: int| s.to_set().contains(x) implies range.contains(x) by {
                let k = choose|k: int| 0 <= k < s.len() && s[k] == x;
                assert(0 <= s[k] < self.count());
            }
        }
        vstd::set_lib::lemma_int_range(0, self.count());
        vstd::set_lib::lemma_len_subset(s.to_set(), range);
    }

    /// Every accumulated cost is non-negative and bounded by the
    /// node's depth times the largest possible edge.
    pub proof fn lemma_cost_bound(&self, i: int)
        requires
            self.wf(),
            0 <= i < self.count(),
        ensures
            0 <= self.cost_of(i),
            self.cost_of(i) <= self.depth_of(i) * (MAX_EDGE as int),
        decreases self.depth_of(i),
    {
        if i == 0 {
        } else {
            let p = self.par(i);
            assert(self.depth_of(i) == self.depth_of(p) + 1);
            self.lemma_cost_bound(p);
            crate::geom::lemma_dist_le_max_edge(self.pos(p), self.pos(i));
            assert(self.depth_of(i) * (MAX_EDGE as int) == self.depth_of(p) * (MAX_EDGE as int)
                + MAX_EDGE) by (nonlinear_arith)
                requires
                    self.depth_of(i) == self.depth_of(p) + 1,
            ;
        }
    }

    /// Costs stay well below `i64` range: at most
    /// `(NODE_LIMIT - 1) * MAX_EDGE`.
    pub proof fn lemma_cost_small(&self, i: int)
        requires
            self.wf(),
            0 <= i < self.count(),
        ensures
            0 <= self.cost_of(i) <= 8_000_000_000_000_000,
    {
        self.lemma_cost_bound(i);
        self.lemma_depth_lt_count(i);
        assert(self.depth_of(i) * (MAX_EDGE as int) <= (NODE_LIMIT - 1) * (MAX_EDGE as int))
            by (nonlinear_arith)
            requires
                0 <= self.depth_of(i) <= NODE_LIMIT - 1,
        ;
        assert((NODE_LIMIT - 1) * (MAX_EDGE as int) < 8_000_000_000_000_000int);
    }

    /// A new tree holding only a root node at `position`.
    pub fn new(position: Vec<i64>) -> (t: Tree)
        requires
            1 <= position@.len() <= MAX_DIM,
            in_limits(position@),
        ensures
            t.wf(),
            t.count() == 1,
            t.dim == position@.len(),
            t.pos(0) == position@,
            t.cost_of(0) == 0,
    {
        let dim = position.len();
        let mut nodes: Vec<Node> = Vec::new();
        nodes.push(Node::new(position));
        let ghost dseq: Seq<nat> = seq![0nat];
        let t = Tree { nodes, dim, depth: Ghost(dseq) };
        proof {
            assert forall|i: int| 0 <= i < t.count() implies #[trigger] t.kids_ok(i) by {
                assert(t.kids(0).len() == 0);
            }
        }
        t
    }

    /// Number of nodes, as an executable value.
    pub fn len(&self) -> (n: usize)
        ensures
            n == self.count(),
    {
        self.nodes.len()
    }

    /// A reference to node `i`.
    pub fn get(&self, i: usize) -> (n: &Node)
        requires
            i < self.count(),
        ensures
            n == &self.nodes@[i as int],
    {
        &self.nodes[i]
    }

    /// Appends a node at `position` as a child of `parent` and
    /// returns its index. The new node's cost extends its parent's by
    /// the distance of the connecting edge.
    pub fn add_node(&mut self, position: Vec<i64>, parent: usize) -> (idx: usize)
        requires
            old(self).wf(),
            parent < old(self).count(),
            old(self).count() < NODE_LIMIT,
            position@.len() == old(self).dim,
            in_limits(position@),
        ensures
            final(self).wf(),
            idx == old(self).count(),
            final(self).count() == old(self).count() + 1,
            final(self).dim == old(self).dim,
            forall|i: int|
                0 <= i < old(self).count() ==> final(self).pos(i) == old(self).pos(i),
            forall|i: int|
                0 <= i < old(self).count() ==> final(self).parent_of(i) == old(self).parent_of(i),
            forall|i: int|
                0 <= i < old(self).count() ==> final(self).cost_of(i) == old(self).cost_of(i),
            forall|i: int|
                0 <= i < old(self).count() ==> final(self).depth_of(i) == old(self).depth_of(i),
            forall|i: int|
                0 <= i < old(self).count() && i != parent ==> final(self).kids(i) == old(
                    self,
                ).kids(i),
            final(self).kids(parent as int) == old(self).kids(parent as int).push(idx),
            final(self).pos(idx as int) == position@,
            final(self).parent_of(idx as int) == Some(parent),
            final(self).par(idx as int) == parent,
            final(self).cost_of(idx as int) == old(self).cost_of(parent as int) + dist(
                old(self).pos(parent as int),
                position@,
            ),
            final(self).depth_of(idx as int) == old(self).depth_of(parent as int) + 1,
            final(self).kids(idx as int).len() == 0,
    {
        let ghost pos_view = position@;
        proof {
            self.lemma_cost_small(parent as int);
        }
        let idx = self.nodes.len();
        assert(self.pos(parent as int).len() == self.dim && in_limits(self.pos(parent as int)));
        let d = crate::geom::dist_points(&self.nodes[parent].position, &position);
        let c: i64 = self.nodes[parent].cost + d;
        let ghost t0 = *self;
        self.nodes[parent].children.push(idx);
        self.nodes.push(Node { position, parent: Some(parent), children: Vec::new(), cost: c });
        self.depth = Ghost(self.depth@.push((t0.depth_of(parent as int) + 1) as nat));
        proof {
            let n = t0.count();
            let pi = parent as int;
            let t2 = *self;
            assert(t2.count() == n + 1);
            assert(t2.pos(n) == pos_view);
            assert(t2.kids(pi) =~= t0.kids(pi).push(idx));
            assert forall|i: int| 0 <= i < n implies t2.pos(i) == t0.pos(i)
                && t2.parent_of(i) == t0.parent_of(i) && t2.cost_of(i) == t0.cost_of(i)
                && t2.depth_of(i) == t0.depth_of(i) by {}
            assert forall|i: int| 0 <= i < n && i != pi implies t2.kids(i) == t0.kids(i) by {}
            assert forall|i: int| 1 <= i < n implies t2.par(i) == t0.par(i) by {}
            // Well-formedness of the grown tree.
            assert forall|i: int|
                0 <= i < t2.count() implies (#[trigger] t2.pos(i)).len() == t2.dim && in_limits(
                t2.pos(i),
            ) by {
                if i < n {
                    assert(t0.pos(i).len() == t0.dim && in_limits(t0.pos(i)));
                }
            }
            assert forall|i: int| 1 <= i < t2.count() implies (#[trigger] t2.parent_of(i)) is Some
                by {
                if i < n {
                    assert(t0.parent_of(i) is Some);
                }
            }
            assert forall|i: int| 1 <= i < t2.count() implies 0 <= #[trigger] t2.par(i)
                < t2.count() by {
                if i < n {
                    assert(0 <= t0.par(i) < n);
                }
            }
            assert forall|i: int|
                1 <= i < t2.count() implies #[trigger] t2.depth_of(i) == t2.depth_of(t2.par(i))
                + 1 by {
                if i < n {
                    assert(t0.depth_of(i) == t0.depth_of(t0.par(i)) + 1);
                }
            }
            assert forall|i: int|
                1 <= i < t2.count() implies #[trigger] t2.cost_of(i) == t2.cost_of(t2.par(i))
                + dist(t2.pos(t2.par(i)), t2.pos(i)) by {
                if i < n {
                    assert(t0.cost_of(i) == t0.cost_of(t0.par(i)) + dist(
                        t0.pos(t0.par(i)),
                        t0.pos(i),
                    ));
                }
            }
            assert forall|i: int| 0 <= i < t2.count() implies #[trigger] t2.kids_ok(i) by {
                if i == n {
                    assert(t2.kids(n).len() == 0);
                } else {
                    assert(t0.kids_ok(i));
                    if i == pi {
                        assert forall|k: int|
                            0 <= k < t2.kids(i).len() implies 1 <= (#[trigger] t2.kids(i)[k]) as int
                            && (t2.kids(i)[k] as int) < t2.count() && t2.par(
                            t2.kids(i)[k] as int,
                        ) == i by {
                            if k < t0.kids(i).len() {
                                assert(t0.kids(i)[k] == t2.kids(i)[k]);
                            } else {
                                assert(t2.kids(i)[k] == idx);
                            }
                        }
                        assert forall|j: int|
                            1 <= j < t2.count() && t2.par(j) == i implies t2.kids(i).contains(
                            j as usize,
                        ) by {
                            if j < n {
                                assert(t0.kids(i).contains(j as usize));
                                let k = choose|k: int|
                                    0 <= k < t0.kids(i).len() && t0.kids(i)[k] == j as usize;
                                assert(t2.kids(i)[k] == j as usize);
                            } else {
                                assert(t2.kids(i)[t0.kids(i).len() as int] == idx);
                            }
                        }
                        assert forall|k1: int, k2: int|
                            0 <= k1 < k2 < t2.kids(i).len() implies t2.kids(i)[k1] != t2.kids(
                            i,
                        )[k2] by {
                            if k2 < t0.kids(i).len() {
                            } else {
                                if k1 < t0.kids(i).len() {
                                    assert((t0.kids(i)[k1] as int) < n);
                                    assert(t2.kids(i)[k2] == idx);
                                }
                            }
                        }
                    } else {
                        assert forall|j: int|
                            1 <= j < t2.count() && t2.par(j) == i implies t2.kids(i).contains(
                            j as usize,
                        ) by {
                            if j < n {
                                assert(t0.kids(i).contains(j as usize));
                            } else {
                                assert(t2.par(n) == pi);
                            }
                        }
                    }
                }
            }
        }
        idx
    }
    /// The index of the node nearest to `p` in squared Euclidean
    /// distance; among equally near nodes the first-seen (lowest)
    /// index wins.
    pub fn nearest(&self, p: &Vec<i64>) -> (r: usize)
        requires
            self.wf(),
            p@.len() == self.dim,
            in_limits(p@),
        ensures
            r < self.count(),
            forall|j: int|
                0 <= j < self.count() ==> sq_dist(self.pos(r as int), p@) <= sq_dist(
                    #[trigger] self.pos(j),
                    p@,
                ),
            forall|j: int|
                0 <= j < r ==> sq_dist(#[trigger] self.pos(j), p@) > sq_dist(
                    self.pos(r as int),
                    p@,
                ),
    {
        let n = self.nodes.len();
        assert(self.pos(0).len() == self.dim && in_limits(self.pos(0)));
        let mut best: usize = 0;
        let mut best_sq: i64 = crate::geom::sq_dist_points(&self.nodes[0].position, p);
        let mut i: usize = 1;
        while i < n
            invariant
                1 <= i <= n,
                n == self.count(),
                self.wf(),
                p@.len() == self.dim,
                in_limits(p@),
                best < i,
                best_sq == sq_dist(self.pos(best as int), p@),
                forall|j: int|
                    0 <= j < i ==> best_sq <= sq_dist(#[trigger] self.pos(j), p@),
                forall|j: int| 0 <= j < best ==> sq_dist(#[trigger] self.pos(j), p@) > best_sq,
            decreases n - i,
        {
            assert(self.pos(i as int).len() == self.dim && in_limits(self.pos(i as int)));
            let s = crate::geom::sq_dist_points(&self.nodes[i].position, p);
            if s < best_sq {
                best = i;
                best_sq = s;
            }
            i = i + 1;
        }
        best
    }

    /// The indices of all nodes whose squared distance to `p` is at
    /// most `radius * radius`, in increasing order.
    pub fn near_indices(&self, p: &Vec<i64>, radius: i64) -> (v: Vec<usize>)
        requires
            self.wf(),
            p@.len() == self.dim,
            in_limits(p@),
            radius >= 0,
        ensures
            forall|k1: int, k2: int| 0 <= k1 < k2 < v@.len() ==> v@[k1] < v@[k2],
            forall|k: int|
                0 <= k < v@.len() ==> ((#[trigger] v@[k]) as int) < self.count() && sq_dist(
                    self.pos(v@[k] as int),
                    p@,
                ) <= radius * radius,
            forall|j: int|
                0 <= j < self.count() && sq_dist(#[trigger] self.pos(j), p@) <= radius * radius
                    ==> v@.contains(j as usize),
    {
        let n = self.nodes.len();
        let mut v: Vec<usize> = Vec::new();
        let mut i: usize = 0;
        assert((radius as int) * (radius as int)
            < 0x8000_0000_0000_0000_0000_0000_0000_0000int) by (nonlinear_arith)
            requires
                0 <= radius < 0x8000_0000_0000_0000int,
        ;
        let rr: i128 = (radius as i128) * (radius as i128);
        while i < n
            invariant
                0 <= i <= n,
                n == self.count(),
                self.wf(),
                p@.len() == self.dim,
                in_limits(p@),
                radius >= 0,
                rr == (radius as int) * (radius as int),
                forall|k1: int, k2: int| 0 <= k1 < k2 < v@.len() ==> v@[k1] < v@[k2],
                forall|k: int|
                    0 <= k < v@.len() ==> ((#[trigger] v@[k]) as int) < i && sq_dist(
                        self.pos(v@[k] as int),
                        p@,
                    ) <= radius * radius,
                forall|j: int|
                    0 <= j < i && sq_dist(#[trigger] self.pos(j), p@) <= radius * radius
                        ==> v@.contains(j as usize),
            decreases n - i,
        {
            assert(self.pos(i as int).len() == self.dim && in_limits(self.pos(i as int)));
            let s = crate::geom::sq_dist_points(&self.nodes[i].position, p);
            let ghost v0 = v@;
            if (s as i128) <= rr {
                v.push(i);
            }
            proof {
                assert forall|j: int|
                    0 <= j < i + 1 && sq_dist(#[trigger] self.pos(j), p@) <= radius * radius
                        implies v@.contains(j as usize) by {
                    if j < i {
                        assert(v0.contains(j as usize));
                        let k = choose|k: int| 0 <= k < v0.len() && v0[k] == j as usize;
                        assert(v@[k] == j as usize);
                    } else {
                        assert(v@.last() == i);
                    }
                }
            }
            i = i + 1;
        }
        v
    }

    /// The index of the node `j` minimizing `cost(j) + distance(j,
    /// p)`, the cost that a new node at `p` would get with `j` as its
    /// parent; among equal costs the first-seen index wins.
    pub fn min_cost_parent(&self, p: &Vec<i64>) -> (r: usize)
        requires
            self.wf(),
            p@.len() == self.dim,
            in_limits(p@),
        ensures
            r < self.count(),
            forall|j: int|
                0 <= j < self.count() ==> self.cost_of(r as int) + dist(self.pos(r as int), p@)
                    <= self.cost_of(j) + dist(#[trigger] self.pos(j), p@),
            forall|j: int|
                0 <= j < r ==> self.cost_of(j) + dist(#[trigger] self.pos(j), p@)
                    > self.cost_of(r as int) + dist(self.pos(r as int), p@),
    {
        let n = self.nodes.len();
        assert(self.pos(0).len() == self.dim && in_limits(self.pos(0)));
        proof {
            self.lemma_cost_small(0);
        }
        let d0 = crate::geom::dist_points(&self.nodes[0].position, p);
        let mut best: usize = 0;
        let mut best_val: i64 = self.nodes[0].cost + d0;
        let mut i: usize = 1;
        while i < n
            invariant
                1 <= i <= n,
                n == self.count(),
                self.wf(),
                p@.len() == self.dim,
                in_limits(p@),
                best < i,
                best_val == self.cost_of(best as int) + dist(self.pos(best as int), p@),
                forall|j: int|
                    0 <= j < i ==> best_val <= self.cost_of(j) + dist(#[trigger] self.pos(j), p@),
                forall|j: int|
                    0 <= j < best ==> self.cost_of(j) + dist(#[trigger] self.pos(j), p@)
                        > best_val,
            decreases n - i,
        {
            assert(self.pos(i as int).len() == self.dim && in_limits(self.pos(i as int)));
            proof {
                self.lemma_cost_small(i as int);
            }
            let d = crate::geom::dist_points(&self.nodes[i].position, p);
            let val: i64 = self.nodes[i].cost + d;
            if val < best_val {
                best = i;
                best_val = val;
            }
            i = i + 1;
        }
        best
    }

    /// As `min_cost_parent`, but only nodes within `radius` of `p`
    /// compete; some node within the radius must exist.
    pub fn min_cost_parent_within(&self, p: &Vec<i64>, radius: i64) -> (r: usize)
        requires
            self.wf(),
            p@.len() == self.dim,
            in_limits(p@),
            radius >= 0,
            exists|j: int|
                0 <= j < self.count() && sq_dist(#[trigger] self.pos(j), p@) <= radius * radius,
        ensures
            r < self.count(),
            sq_dist(self.pos(r as int), p@) <= radius * radius,
            forall|j: int|
                0 <= j < self.count() && sq_dist(#[trigger] self.pos(j), p@) <= radius * radius
                    ==> self.cost_of(r as int) + dist(self.pos(r as int), p@) <= self.cost_of(j)
                    + dist(self.pos(j), p@),
            forall|j: int|
                0 <= j < r && sq_dist(#[trigger] self.pos(j), p@) <= radius * radius
                    ==> self.cost_of(j) + dist(self.pos(j), p@) > self.cost_of(r as int) + dist(
                    self.pos(r as int),
                    p@,
                ),
    {
        let n = self.nodes.len();
        assert((radius as int) * (radius as int)
            < 0x8000_0000_0000_0000_0000_0000_0000_0000int) by (nonlinear_arith)
            requires
                0 <= radius < 0x8000_0000_0000_0000int,
        ;
        let rr: i128 = (radius as i128) * (radius as i128);
        let mut found: bool = false;
        let mut best: usize = 0;
        let mut best_val: i64 = 0;
        let mut i: usize = 0;
        while i < n
            invariant
                0 <= i <= n,
                n == self.count(),
                self.wf(),
                p@.len() == self.dim,
                in_limits(p@),
                radius >= 0,
                rr == (radius as int) * (radius as int),
                found <==> exists|j: int|
                    0 <= j < i && sq_dist(#[trigger] self.pos(j), p@) <= radius * radius,
                found ==> best < i && sq_dist(self.pos(best as int), p@) <= radius * radius
                    && best_val == self.cost_of(best as int) + dist(self.pos(best as int), p@),
                found ==> forall|j: int|
                    0 <= j < i && sq_dist(#[trigger] self.pos(j), p@) <= radius * radius
                        ==> best_val <= self.cost_of(j) + dist(self.pos(j), p@),
                found ==> forall|j: int|
                    0 <= j < best && sq_dist(#[trigger] self.pos(j), p@) <= radius * radius
                        ==> self.cost_of(j) + dist(self.pos(j), p@) > best_val,
            decreases n - i,
        {
            assert(self.pos(i as int).len() == self.dim && in_limits(self.pos(i as int)));
            let s = crate::geom::sq_dist_points(&self.nodes[i].position, p);
            if (s as i128) <= rr {
                proof {
                    self.lemma_cost_small(i as int);
                }
                let d = crate::geom::dist_points(&self.nodes[i].position, p);
                let val: i64 = self.nodes[i].cost + d;
                if !found || val < best_val {
                    best = i;
                    best_val = val;
                }
                found = true;
            }
            i = i + 1;
        }
        best
    }

    /// Reparents node `near` to `newi` when that lowers `near`'s
    /// cost, and propagates the cost change to `near`'s entire
    /// subtree with an explicit work stack; otherwise leaves the tree
    /// untouched. The cost guard is also what keeps the tree acyclic:
    /// a node of `near`'s own subtree can never offer a strictly
    /// cheaper connection, because costs only grow along tree edges.
    #[verifier::rlimit(100)]
    pub fn rewire_one(&mut self, near: usize, newi: usize)
        requires
            old(self).wf(),
            near < old(self).count(),
            newi < old(self).count(),
        ensures
            final(self).wf(),
            final(self).count() == old(self).count(),
            final(self).dim == old(self).dim,
            forall|i: int| 0 <= i < old(self).count() ==> final(self).pos(i) == old(self).pos(i),
            forall|i: int|
                0 <= i < old(self).count() ==> final(self).cost_of(i) <= old(self).cost_of(i),
            forall|i: int|
                0 <= i < old(self).count() && i != near ==> final(self).parent_of(i) == old(
                    self,
                ).parent_of(i),
            old(self).cost_of(newi as int) + dist(
                old(self).pos(newi as int),
                old(self).pos(near as int),
            ) < old(self).cost_of(near as int) ==> final(self).par(near as int) == newi
                && final(self).cost_of(near as int) == old(self).cost_of(newi as int) + dist(
                old(self).pos(newi as int),
                old(self).pos(near as int),
            ),
            !(old(self).cost_of(newi as int) + dist(
                old(self).pos(newi as int),
                old(self).pos(near as int),
            ) < old(self).cost_of(near as int)) ==> *final(self) == *old(self),
            forall|i: int|
                0 <= i < old(self).count() && !old(self).in_subtree(near as int, i)
                    ==> final(self).cost_of(i) == old(self).cost_of(i),
    {
        let ghost t0 = *self;
        proof {
            self.lemma_cost_small(near as int);
            self.lemma_cost_small(newi as int);
            assert(self.pos(near as int).len() == self.dim && in_limits(self.pos(near as int)));
            assert(self.pos(newi as int).len() == self.dim && in_limits(self.pos(newi as int)));
        }
        let d = crate::geom::dist_points(&self.nodes[newi].position, &self.nodes[near].position);
        let newc: i64 = self.nodes[newi].cost + d;
        if !(newc < self.nodes[near].cost) {
            return ;
        }
        let ghost ni = near as int;
        let ghost wi = newi as int;
        proof {
            // The guard forces `near` to be a non-root node outside
            // whose subtree `newi` lies.
            crate::geom::lemma_dist_basic(t0.pos(wi), t0.pos(ni));
            assert(ni != 0);
            if t0.in_subtree(ni, wi) {
                t0.lemma_in_subtree_cost(ni, wi);
                assert(false);
            }
            assert(near != newi);
        }
        let oldp = self.nodes[near].parent.unwrap();
        let ghost oi = oldp as int;
        proof {
            assert(t0.par(ni) == oi);
            assert(t0.depth_of(ni) == t0.depth_of(oi) + 1);
            if t0.in_subtree(ni, oi) {
                t0.lemma_in_subtree_depth(ni, oi);
                assert(false);
            }
            if oi == wi {
                assert(t0.cost_of(ni) == t0.cost_of(oi) + dist(t0.pos(oi), t0.pos(ni)));
                crate::geom::lemma_sq_dist_sym(t0.pos(wi), t0.pos(ni));
                assert(dist(t0.pos(wi), t0.pos(ni)) == dist(t0.pos(ni), t0.pos(wi)));
                assert(false);
            }
        }
        // Detach `near` from its old parent's children list.
        let m = self.nodes[oldp].children.len();
        let mut k: usize = 0;
        proof {
            assert(t0.kids_ok(oi));
            assert(t0.kids(oi).contains(near));
        }
        while k < m && self.nodes[oldp].children[k] != near
            invariant
                0 <= k <= m,
                *self == t0,
                oi == oldp as int,
                ni == near as int,
                0 <= oi < t0.count(),
                m == t0.kids(oi).len(),
                t0.kids(oi).contains(near),
                forall|j: int| 0 <= j < k ==> t0.kids(oi)[j] != near,
            decreases m - k,
        {
            k = k + 1;
        }
        proof {
            if k == m {
                let j = choose|j: int| 0 <= j < t0.kids(oi).len() && t0.kids(oi)[j] == near;
                assert(false);
            }
            assert(k < m && t0.kids(oi)[k as int] == near);
        }
        self.nodes[oldp].children.remove(k);
        // Point `near` at its new parent and register it there.
        self.nodes[near].parent = Some(newi);
        self.nodes[newi].children.push(near);
        // Depths of the moved subtree shift uniformly.
        let ghost sub = Set::new(|x: int| 0 <= x < t0.count() && t0.in_subtree(ni, x));
        let ghost dd: int = t0.depth_of(wi) + 1 - t0.depth_of(ni);
        proof {
            assert forall|x: int| sub.contains(x) implies t0.depth_of(x) + dd >= 0 by {
                t0.lemma_in_subtree_depth(ni, x);
            }
            self.depth = Ghost(
                Seq::new(
                    t0.depth@.len(),
                    |x: int|
                        if sub.contains(x) {
                            (t0.depth_of(x) + dd) as nat
                        } else {
                            t0.depth_of(x)
                        },
                ),
            );
        }
        let ghost t1 = *self;
        proof {
            assert(sub.subset_of(vstd::set_lib::set_int_range(0, t0.count())));
            vstd::set_lib::lemma_int_range(0, t0.count());
            vstd::set_lib::lemma_len_subset(sub, vstd::set_lib::set_int_range(0, t0.count()));
            assert(!sub.contains(wi) && !sub.contains(oi) && !sub.contains(0));
            assert(sub.contains(ni));
            // Shape of the relinked tree against the pre-surgery tree.
            assert(t1.count() == t0.count());
            assert(t1.dim == t0.dim);
            assert(forall|i: int| 0 <= i < t0.count() ==> #[trigger] t1.pos(i) == t0.pos(i));
            assert(forall|i: int|
                0 <= i < t0.count() ==> #[trigger] t1.cost_of(i) == t0.cost_of(i));
            assert(forall|i: int|
                0 <= i < t0.count() && i != ni ==> #[trigger] t1.parent_of(i) == t0.parent_of(
                    i,
                ));
            assert(t1.parent_of(ni) == Some(newi));
            assert(t1.kids(oi) =~= t0.kids(oi).remove(k as int));
            assert(t1.kids(wi) =~= t0.kids(wi).push(near));
            assert(forall|i: int|
                0 <= i < t0.count() && i != oi && i != wi ==> #[trigger] t1.kids(i) == t0.kids(
                    i,
                ));
        }
        // Apply the cost change to `near` and all of its descendants.
        let delta: i64 = newc - self.nodes[near].cost;
        let mut stack: Vec<usize> = Vec::new();
        stack.push(near);
        let ghost mut processed: Set<int> = Set::empty();
        proof {
            assert forall|j: int|
                sub.contains(j) implies ((processed.contains(j) || stack@.contains(j as usize))
                <==> (j == ni || processed.contains(t0.par(j)))) by {
                if j == ni {
                    assert(stack@[0] == near);
                }
            }
        }
        while stack.len() > 0
            invariant
                t0.wf(),
                1 <= ni < t0.count(),
                0 <= wi < t0.count(),
                0 <= oi < t0.count(),
                ni == near as int,
                sub == Set::new(|x: int| 0 <= x < t0.count() && t0.in_subtree(ni, x)),
                sub.finite(),
                sub.len() <= t0.count(),
                !sub.contains(wi),
                !sub.contains(oi),
                oi == oldp as int,
                wi == newi as int,
                t0.par(ni) == oi,
                t0.depth_of(ni) == t0.depth_of(oi) + 1,
                t1.count() == t0.count(),
                t1.dim == t0.dim,
                t1.depth@.len() == t0.count(),
                forall|i: int| 0 <= i < t0.count() ==> #[trigger] t1.pos(i) == t0.pos(i),
                forall|i: int|
                    0 <= i < t0.count() ==> #[trigger] t1.cost_of(i) == t0.cost_of(i),
                forall|i: int|
                    0 <= i < t0.count() && i != ni ==> #[trigger] t1.parent_of(i)
                        == t0.parent_of(i),
                t1.parent_of(ni) == Some(newi),
                forall|i: int|
                    0 <= i < t0.count() && i != oi && i != wi ==> #[trigger] t1.kids(i)
                        == t0.kids(i),
                self.nodes@.len() == t0.count(),
                self.dim == t1.dim,
                self.depth@ == t1.depth@,
                forall|i: int|
                    0 <= i < t0.count() ==> #[trigger] self.nodes@[i].position
                        == t1.nodes@[i].position,
                forall|i: int|
                    0 <= i < t0.count() ==> #[trigger] self.nodes@[i].parent
                        == t1.nodes@[i].parent,
                forall|i: int|
                    0 <= i < t0.count() ==> #[trigger] self.nodes@[i].children
                        == t1.nodes@[i].children,
                processed.finite(),
                processed.subset_of(sub),
                forall|k2: int|
                    0 <= k2 < stack@.len() ==> sub.contains((#[trigger] stack@[k2]) as int)
                        && !processed.contains(stack@[k2] as int),
                forall|k1: int, k2: int|
                    0 <= k1 < k2 < stack@.len() ==> stack@[k1] != stack@[k2],
                forall|j: int|
                    sub.contains(j) ==> ((processed.contains(j) || stack@.contains(j as usize))
                        <==> (j == ni || processed.contains(t0.par(j)))),
                forall|i: int|
                    0 <= i < t0.count() ==> #[trigger] self.cost_of(i) == if processed.contains(
                        i,
                    ) {
                        t0.cost_of(i) + delta
                    } else {
                        t0.cost_of(i)
                    },
                -8_000_000_000_000_000 <= delta < 0,
            decreases t0.count() - processed.len(),
        {
            let ghost s_head = *self;
            let ghost spre = stack@;
            let x = stack.pop().unwrap();
            let ghost p0 = processed;
            proof {
                assert(spre =~= stack@.push(x));
                processed = processed.insert(x as int);
                assert(sub.contains(x as int));
                assert(!p0.contains(x as int));
                t0.lemma_cost_small(x as int);
            }
            let cx = self.nodes[x].cost;
            proof {
                assert(!p0.contains(x as int));
                assert(self.cost_of(x as int) == t0.cost_of(x as int));
                assert(cx == t0.cost_of(x as int));
                assert(0 <= t0.cost_of(x as int) <= 8_000_000_000_000_000);
            }
            self.nodes[x].cost = cx + delta;
            proof {
                assert(self.nodes@.len() == s_head.nodes@.len());
                assert(self.cost_of(x as int) == t0.cost_of(x as int) + delta);
                assert forall|i: int|
                    0 <= i < t0.count() implies #[trigger] self.cost_of(i)
                    == if processed.contains(i) {
                    t0.cost_of(i) + delta
                } else {
                    t0.cost_of(i)
                } by {
                    if i != x as int {
                        assert(self.nodes@[i] == s_head.nodes@[i]);
                        assert(s_head.cost_of(i) == if p0.contains(i) {
                            t0.cost_of(i) + delta
                        } else {
                            t0.cost_of(i)
                        });
                    }
                }
                assert forall|i: int|
                    0 <= i < t0.count() implies #[trigger] self.nodes@[i].position
                    == t1.nodes@[i].position && self.nodes@[i].parent == t1.nodes@[i].parent
                    && self.nodes@[i].children == t1.nodes@[i].children by {
                    if i != x as int {
                        assert(self.nodes@[i] == s_head.nodes@[i]);
                    }
                    assert(s_head.nodes@[i].position == t1.nodes@[i].position);
                    assert(s_head.nodes@[i].parent == t1.nodes@[i].parent);
                    assert(s_head.nodes@[i].children == t1.nodes@[i].children);
                }
            }
            // Queue every child of `x`; each lies in the moved
            // subtree and has not been visited.
            let cn = self.nodes[x].children.len();
            let ghost kx = t0.kids(x as int);
            proof {
                assert(t0.kids_ok(x as int));
                assert(x != oldp && x as int != wi);
                assert(self.nodes@[x as int].children == t1.nodes@[x as int].children);
                assert(t1.kids(x as int) == t0.kids(x as int));
                // Entering the child loop: restate the closure with
                // the new processed set.
                assert forall|j: int|
                    sub.contains(j) implies ((processed.contains(j) || stack@.contains(
                    j as usize,
                )) <==> (j == ni || p0.contains(t0.par(j)) || (t0.par(j) == x as int
                    && exists|m2: int| 0 <= m2 < 0 && kx[m2] == j as usize))) by {
                    lemma_push_contains(stack@, x, j as usize);
                    if j == x as int {
                        assert(processed.contains(j));
                    }
                    if t0.par(j) == x as int && p0.contains(t0.par(j)) {
                        assert(p0.contains(x as int));
                        assert(false);
                    }
                }
            }
            let mut c: usize = 0;
            while c < cn
                invariant
                    t0.wf(),
                    1 <= ni < t0.count(),
                    0 <= wi < t0.count(),
                    0 <= oi < t0.count(),
                    ni == near as int,
                    sub == Set::new(|y: int| 0 <= y < t0.count() && t0.in_subtree(ni, y)),
                    sub.finite(),
                    sub.len() <= t0.count(),
                    !sub.contains(wi),
                    !sub.contains(oi),
                    oi == oldp as int,
                    wi == newi as int,
                    t0.par(ni) == oi,
                    t0.depth_of(ni) == t0.depth_of(oi) + 1,
                    t1.count() == t0.count(),
                    t1.dim == t0.dim,
                    t1.depth@.len() == t0.count(),
                    forall|i: int| 0 <= i < t0.count() ==> #[trigger] t1.pos(i) == t0.pos(i),
                    forall|i: int|
                        0 <= i < t0.count() ==> #[trigger] t1.cost_of(i) == t0.cost_of(i),
                    forall|i: int|
                        0 <= i < t0.count() && i != ni ==> #[trigger] t1.parent_of(i)
                            == t0.parent_of(i),
                    t1.parent_of(ni) == Some(newi),
                    forall|i: int|
                        0 <= i < t0.count() && i != oi && i != wi ==> #[trigger] t1.kids(i)
                            == t0.kids(i),
                    self.nodes@.len() == t0.count(),
                    self.dim == t1.dim,
                    self.depth@ == t1.depth@,
                    forall|i: int|
                        0 <= i < t0.count() ==> #[trigger] self.nodes@[i].position
                            == t1.nodes@[i].position,
                    forall|i: int|
                        0 <= i < t0.count() ==> #[trigger] self.nodes@[i].parent
                            == t1.nodes@[i].parent,
                    forall|i: int|
                        0 <= i < t0.count() ==> #[trigger] self.nodes@[i].children
                            == t1.nodes@[i].children,
                    0 <= c <= cn,
                    0 <= (x as int) && (x as int) < t0.count(),
                    sub.contains(x as int),
                    x != oldp,
                    x as int != wi,
                    kx == t0.kids(x as int),
                    cn == kx.len(),
                    processed == p0.insert(x as int),
                    !p0.contains(x as int),
                    processed.finite(),
                    processed.subset_of(sub),
                    forall|k2: int|
                        0 <= k2 < stack@.len() ==> sub.contains((#[trigger] stack@[k2]) as int)
                            && !processed.contains(stack@[k2] as int),
                    forall|k1: int, k2: int|
                        0 <= k1 < k2 < stack@.len() ==> stack@[k1] != stack@[k2],
                    forall|j: int|
                        sub.contains(j) ==> ((processed.contains(j) || stack@.contains(
                            j as usize,
                        )) <==> (j == ni || p0.contains(t0.par(j)) || (t0.par(j) == x as int
                            && exists|m2: int| 0 <= m2 < c && kx[m2] == j as usize))),
                    forall|i: int|
                        0 <= i < t0.count() ==> #[trigger] self.cost_of(i)
                            == if processed.contains(i) {
                            t0.cost_of(i) + delta
                        } else {
                            t0.cost_of(i)
                        },
                    -8_000_000_000_000_000 <= delta < 0,
                decreases cn - c,
            {
                proof {
                    assert(self.nodes@[x as int].children == t1.nodes@[x as int].children);
                    assert(t1.kids(x as int) == t0.kids(x as int));
                }
                let ch = self.nodes[x].children[c];
                let ghost ci = ch as int;
                let ghost sb = stack@;
                proof {
                    assert(t0.kids_ok(x as int));
                    assert(kx[c as int] == ch);
                    assert(1 <= ci < t0.count() && t0.par(ci) == x as int);
                    assert(t0.in_subtree(ni, ci)) by {
                        assert(t0.in_subtree(ni, x as int));
                    }
                    assert(sub.contains(ci));
                    assert(ci != ni) by {
                        if ci == ni {
                            assert(t0.par(ni) == oi);
                            assert(!sub.contains(oi));
                            assert(sub.contains(x as int));
                        }
                    }
                    // `ch` is fresh: neither processed nor queued.
                    assert(!(processed.contains(ci) || sb.contains(ch))) by {
                        if processed.contains(ci) || sb.contains(ch) {
                            if p0.contains(t0.par(ci)) {
                                assert(p0.contains(x as int));
                            } else {
                                let m2 = choose|m2: int| 0 <= m2 < c && kx[m2] == ch;
                                assert(kx[m2] == kx[c as int]);
                            }
                        }
                    }
                }
                stack.push(ch);
                proof {
                    assert(stack@ =~= sb.push(ch));
                    assert forall|j: int|
                        sub.contains(j) implies ((processed.contains(j) || stack@.contains(
                        j as usize,
                    )) <==> (j == ni || p0.contains(t0.par(j)) || (t0.par(j) == x as int
                        && exists|m2: int| 0 <= m2 < c + 1 && kx[m2] == j as usize))) by {
                        lemma_push_contains(sb, ch, j as usize);
                        if j == ci {
                            assert(stack@.contains(ch));
                            assert(kx[c as int] == j as usize);
                        } else {
                            if t0.par(j) == x as int && exists|m2: int|
                                0 <= m2 < c + 1 && kx[m2] == j as usize {
                                let m2 = choose|m2: int| 0 <= m2 < c + 1 && kx[m2] == j as usize;
                                if m2 == c {
                                    assert(false);
                                } else {
                                    assert(exists|m3: int| 0 <= m3 < c && kx[m3] == j as usize);
                                }
                            }
                        }
                    }
                    assert forall|k2: int|
                        0 <= k2 < stack@.len() implies sub.contains(
                        (#[trigger] stack@[k2]) as int,
                    ) && !processed.contains(stack@[k2] as int) by {
                        if k2 < sb.len() {
                            assert(stack@[k2] == sb[k2]);
                        } else {
                            assert(stack@[k2] == ch);
                        }
                    }
                }
                c = c + 1;
            }
            proof {
                // Re-establish the undecorated closure property for
                // the outer loop.
                assert forall|j: int|
                    sub.contains(j) implies ((processed.contains(j) || stack@.contains(j as usize))
                    <==> (j == ni || processed.contains(t0.par(j)))) by {
                    if sub.contains(j) && j != ni && t0.par(j) == x as int {
                        assert(1 <= j < t0.count());
                        assert(t0.kids_ok(x as int));
                        assert(t0.kids(x as int).contains(j as usize));
                        let m2 = choose|m2: int| 0 <= m2 < kx.len() && kx[m2] == j as usize;
                        assert(0 <= m2 < cn && kx[m2] == j as usize);
                    }
                    if t0.par(j) == x as int {
                    } else {
                        assert(processed.contains(t0.par(j)) <==> p0.contains(t0.par(j)));
                    }
                }
                assert(processed.len() == p0.len() + 1);
                vstd::set_lib::lemma_len_subset(processed, sub);
            }
        }
        let ghost pfin = processed;
        proof {
            // The stack is empty, so the processed set is closed
            // under the child step and covers the whole subtree.
            assert forall|j: int| sub.contains(j) implies pfin.contains(j) by {
                assert forall|x: int|
                    0 <= x < t0.count() && t0.in_subtree(ni, x) implies (#[trigger] pfin.contains(
                    x,
                ) <==> (x == ni || pfin.contains(t0.par(x)))) by {
                    assert(sub.contains(x));
                    assert(!stack@.contains(x as usize));
                }
                t0.lemma_subtree_closed(ni, pfin, j);
            }
            assert(pfin =~= sub);
            assert forall|i: int|
                0 <= i < t0.count() && !t0.in_subtree(ni, i) implies #[trigger] self.cost_of(i)
                == t0.cost_of(i) by {
                assert(!sub.contains(i));
                assert(!pfin.contains(i));
            }
        }
        proof {
            // Hand the reshaped tree to the well-formedness lemma.
            assert forall|i: int| 0 <= i < t0.count() implies #[trigger] self.pos(i) == t0.pos(i)
                by {
                assert(self.nodes@[i].position == t1.nodes@[i].position);
            }
            assert forall|i: int|
                0 <= i < t0.count() && i != ni implies #[trigger] self.parent_of(i)
                == t0.parent_of(i) by {
                assert(self.nodes@[i].parent == t1.nodes@[i].parent);
            }
            assert(self.parent_of(ni) == Some(newi)) by {
                assert(self.nodes@[ni].parent == t1.nodes@[ni].parent);
            }
            assert(self.kids(oi) == t0.kids(oi).remove(k as int)) by {
                assert(self.nodes@[oi].children == t1.nodes@[oi].children);
            }
            assert(self.kids(wi) == t0.kids(wi).push(near)) by {
                assert(self.nodes@[wi].children == t1.nodes@[wi].children);
            }
            assert forall|i: int|
                0 <= i < t0.count() && i != oi && i != wi implies #[trigger] self.kids(i)
                == t0.kids(i) by {
                assert(self.nodes@[i].children == t1.nodes@[i].children);
            }
            assert forall|i: int|
                0 <= i < t0.count() implies #[trigger] self.depth_of(i) == (if sub.contains(i) {
                (t0.depth_of(i) + dd) as nat
            } else {
                t0.depth_of(i)
            }) by {
                assert(self.depth@ == t1.depth@);
            }
            assert forall|i: int|
                0 <= i < t0.count() implies #[trigger] self.cost_of(i) == (if sub.contains(i) {
                t0.cost_of(i) + delta
            } else {
                t0.cost_of(i)
            }) by {
                assert(pfin.contains(i) <==> sub.contains(i));
            }
            Tree::lemma_rewire_restore(t0, *self, near, newi, oldp, k as int, sub, dd, delta as int);
        }
    }

    /// Rewires every listed node through `newi` in list order: a
    /// node is reparented exactly when the connection through `newi`
    /// is strictly cheaper than its current cost, receiving exactly
    /// the cost `cost(newi) + dist(newi, node)`; every other parent
    /// reference is untouched, no cost ever rises, and afterwards no
    /// listed node could still be improved through `newi`.
    #[verifier::rlimit(100)]
    #[verifier::spinoff_prover]
    pub fn rewire_from_list(&mut self, near_list: &Vec<usize>, newi: usize)
        requires
            old(self).wf(),
            newi < old(self).count(),
            forall|k: int|
                0 <= k < near_list@.len() ==> ((#[trigger] near_list@[k]) as int) < old(
                    self,
                ).count(),
        ensures
            final(self).wf(),
            final(self).count() == old(self).count(),
            final(self).dim == old(self).dim,
            forall|i: int| 0 <= i < old(self).count() ==> final(self).pos(i) == old(self).pos(i),
            final(self).cost_of(newi as int) == old(self).cost_of(newi as int),
            forall|i: int|
                0 <= i < old(self).count() ==> final(self).cost_of(i) <= old(self).cost_of(i),
            forall|i: int|
                0 <= i < old(self).count() ==> final(self).parent_of(i) == old(self).parent_of(i)
                    || (near_list@.contains(i as usize) && final(self).par(i) == newi),
            forall|k: int|
                0 <= k < near_list@.len() ==> final(self).cost_of(
                    (#[trigger] near_list@[k]) as int,
                ) <= old(self).cost_of(newi as int) + dist(
                    old(self).pos(newi as int),
                    old(self).pos(near_list@[k] as int),
                ),
            forall|i: int|
                0 <= i < old(self).count() && final(self).parent_of(i) != old(self).parent_of(i)
                    ==> final(self).par(i) == newi && final(self).cost_of(i) == old(
                    self,
                ).cost_of(newi as int) + dist(old(self).pos(newi as int), old(self).pos(i)) && old(
                    self,
                ).cost_of(newi as int) + dist(old(self).pos(newi as int), old(self).pos(i)) < old(
                    self,
                ).cost_of(i),
    {
        let ghost t0 = *self;
        let ghost wi = newi as int;
        let n = near_list.len();
        let mut k: usize = 0;
        while k < n
            invariant
                self.wf(),
                n == near_list@.len(),
                0 <= k <= n,
                wi == newi as int,
                0 <= wi < t0.count(),
                forall|k2: int|
                    0 <= k2 < n ==> ((#[trigger] near_list@[k2]) as int) < t0.count(),
                self.count() == t0.count(),
                self.dim == t0.dim,
                forall|i: int| 0 <= i < t0.count() ==> #[trigger] self.pos(i) == t0.pos(i),
                self.cost_of(wi) == t0.cost_of(wi),
                forall|i: int|
                    0 <= i < t0.count() ==> #[trigger] self.cost_of(i) <= t0.cost_of(i),
                forall|i: int|
                    0 <= i < t0.count() ==> #[trigger] self.parent_of(i) == t0.parent_of(i) || (
                    near_list@.contains(i as usize) && self.par(i) == wi),
                forall|k2: int|
                    0 <= k2 < k ==> self.cost_of((#[trigger] near_list@[k2]) as int) <= t0.cost_of(
                        wi,
                    ) + dist(t0.pos(wi), t0.pos(near_list@[k2] as int)),
                forall|i: int|
                    0 <= i < t0.count() && #[trigger] self.parent_of(i) != t0.parent_of(i)
                        ==> self.par(i) == wi && self.cost_of(i) == t0.cost_of(wi) + dist(
                        t0.pos(wi),
                        t0.pos(i),
                    ) && t0.cost_of(wi) + dist(t0.pos(wi), t0.pos(i)) < t0.cost_of(i),
                t0 == *old(self),
            decreases n - k,
        {
            let j = near_list[k];
            let ghost ji = j as int;
            let ghost tb = *self;
            self.rewire_one(j, newi);
            proof {
                let dv = dist(tb.pos(wi), tb.pos(ji));
                let rewired = tb.cost_of(wi) + dv < tb.cost_of(ji);
                crate::geom::lemma_dist_basic(tb.pos(wi), tb.pos(ji));
                if rewired {
                    // `newi` cannot sit inside the rewired subtree,
                    // so its cost (and that of everything outside)
                    // is untouched.
                    assert(!tb.in_subtree(ji, wi)) by {
                        if tb.in_subtree(ji, wi) {
                            tb.lemma_in_subtree_cost(ji, wi);
                        }
                    }
                    assert(self.cost_of(wi) == tb.cost_of(wi));
                }
                assert(self.cost_of(wi) == t0.cost_of(wi));
                assert(dv == dist(t0.pos(wi), t0.pos(ji)));
                // Completeness for the node processed in this step.
                assert(self.cost_of(ji) <= t0.cost_of(wi) + dist(t0.pos(wi), t0.pos(ji))) by {
                    if rewired {
                        assert(self.cost_of(ji) == tb.cost_of(wi) + dv);
                    } else {
                        assert(*self == tb);
                        assert(tb.cost_of(ji) <= tb.cost_of(wi) + dv);
                    }
                }
                // The per-node exactness clauses survive the step.
                assert forall|i: int|
                    0 <= i < t0.count() && #[trigger] self.parent_of(i) != t0.parent_of(i)
                        implies self.par(i) == wi && self.cost_of(i) == t0.cost_of(wi) + dist(
                    t0.pos(wi),
                    t0.pos(i),
                ) && t0.cost_of(wi) + dist(t0.pos(wi), t0.pos(i)) < t0.cost_of(i) by {
                    if i == ji {
                        if rewired {
                            assert(self.par(ji) == wi);
                            assert(self.cost_of(ji) == tb.cost_of(wi) + dv);
                            assert(tb.cost_of(ji) <= t0.cost_of(ji));
                        } else {
                            assert(*self == tb);
                        }
                    } else {
                        assert(self.parent_of(i) == tb.parent_of(i));
                        assert(tb.parent_of(i) != t0.parent_of(i));
                        assert(tb.par(i) == wi && tb.cost_of(i) == t0.cost_of(wi) + dist(
                            t0.pos(wi),
                            t0.pos(i),
                        ));
                        if rewired {
                            // A previously rewired node hangs off
                            // `newi`, hence outside this step's
                            // subtree: its exact cost is untouched.
                            assert(i != 0) by {
                                if i == 0 {
                                    assert(tb.parent_of(0) is None && t0.parent_of(0) is None);
                                }
                            }
                            assert(!tb.in_subtree(ji, i)) by {
                                assert(tb.par(i) == wi);
                                if tb.in_subtree(ji, i) {
                                    assert(tb.in_subtree(ji, wi));
                                }
                            }
                            assert(self.cost_of(i) == tb.cost_of(i));
                        } else {
                            assert(*self == tb);
                        }
                    }
                }
                // Earlier completeness bounds survive because costs
                // only fall.
                assert forall|k2: int|
                    0 <= k2 < k + 1 implies self.cost_of((#[trigger] near_list@[k2]) as int)
                    <= t0.cost_of(wi) + dist(t0.pos(wi), t0.pos(near_list@[k2] as int)) by {
                    if k2 < k {
                        assert(self.cost_of(near_list@[k2] as int) <= tb.cost_of(
                            near_list@[k2] as int,
                        ));
                        assert(tb.cost_of(near_list@[k2] as int) <= t0.cost_of(wi) + dist(
                            t0.pos(wi),
                            t0.pos(near_list@[k2] as int),
                        ));
                    } else {
                        assert(near_list@[k2] == j);
                    }
                }
                // The parent disjunction survives.
                assert forall|i: int|
                    0 <= i < t0.count() implies #[trigger] self.parent_of(i) == t0.parent_of(i)
                    || (near_list@.contains(i as usize) && self.par(i) == wi) by {
                    if i == ji {
                        if self.parent_of(ji) != t0.parent_of(ji) {
                            assert(near_list@[k as int] == j);
                            assert(near_list@.contains(j));
                        }
                    } else {
                        assert(self.parent_of(i) == tb.parent_of(i));
                    }
                }
            }
            k = k + 1;
        }
    }

    /// After a rewiring step, the surgered tree is well-formed again
    /// and no node's cost has grown. `t0` is the tree before the
    /// step, `t2` after it: `near` was reparented from `oldp`
    /// (children entry `kk`) to `newi`, the depths of `near`'s old
    /// subtree `sub` shifted by `dd`, and its costs by `delta`.
    #[verifier::rlimit(100)]
    #[verifier::spinoff_prover]
    proof fn lemma_rewire_restore(
        t0: Tree,
        t2: Tree,
        near: usize,
        newi: usize,
        oldp: usize,
        kk: int,
        sub: Set<int>,
        dd: int,
        delta: int,
    )
        requires
            t0.wf(),
            1 <= (near as int) < t0.count(),
            0 <= (newi as int) < t0.count(),
            0 <= (oldp as int) < t0.count(),
            near != newi,
            near != oldp,
            newi != oldp,
            t0.par(near as int) == oldp as int,
            !t0.in_subtree(near as int, newi as int),
            sub == Set::new(|x: int| 0 <= x < t0.count() && t0.in_subtree(near as int, x)),
            dd == t0.depth_of(newi as int) + 1 - t0.depth_of(near as int),
            delta == t0.cost_of(newi as int) + dist(
                t0.pos(newi as int),
                t0.pos(near as int),
            ) - t0.cost_of(near as int),
            delta < 0,
            0 <= kk < t0.kids(oldp as int).len(),
            t0.kids(oldp as int)[kk] == near,
            t2.count() == t0.count(),
            t2.dim == t0.dim,
            t2.depth@.len() == t0.count(),
            forall|i: int| 0 <= i < t0.count() ==> #[trigger] t2.pos(i) == t0.pos(i),
            forall|i: int|
                0 <= i < t0.count() && i != near as int ==> #[trigger] t2.parent_of(i)
                    == t0.parent_of(i),
            t2.parent_of(near as int) == Some(newi),
            t2.kids(oldp as int) == t0.kids(oldp as int).remove(kk),
            t2.kids(newi as int) == t0.kids(newi as int).push(near),
            forall|i: int|
                0 <= i < t0.count() && i != oldp as int && i != newi as int
                    ==> #[trigger] t2.kids(i) == t0.kids(i),
            forall|i: int|
                0 <= i < t0.count() ==> #[trigger] t2.depth_of(i) == (if sub.contains(i) {
                    (t0.depth_of(i) + dd) as nat
                } else {
                    t0.depth_of(i)
                }),
            forall|i: int|
                0 <= i < t0.count() ==> #[trigger] t2.cost_of(i) == (if sub.contains(i) {
                    t0.cost_of(i) + delta
                } else {
                    t0.cost_of(i)
                }),
        ensures
            t2.wf(),
            forall|i: int| 0 <= i < t0.count() ==> #[trigger] t2.cost_of(i) <= t0.cost_of(i),
            t2.par(near as int) == newi as int,
            t2.cost_of(near as int) == t0.cost_of(newi as int) + dist(
                t0.pos(newi as int),
                t0.pos(near as int),
            ),
    {
        let ni = near as int;
        let wi = newi as int;
        let oi = oldp as int;
        assert(sub.contains(ni));
        assert(!sub.contains(wi));
        assert(!sub.contains(oi)) by {
            if sub.contains(oi) {
                t0.lemma_in_subtree_depth(ni, oi);
                assert(t0.depth_of(ni) == t0.depth_of(oi) + 1);
            }
        }
        assert(!sub.contains(0));
        assert(t2.cost_of(ni) == t0.cost_of(ni) + delta);
        assert forall|i: int|
            1 <= i < t0.count() && i != ni implies #[trigger] t2.par(i) == t0.par(i) by {
            assert(t2.parent_of(i) == t0.parent_of(i));
        }
        assert(t2.par(ni) == wi);
        // Well-formedness clause by clause.
        assert forall|i: int|
            0 <= i < t2.count() implies (#[trigger] t2.pos(i)).len() == t2.dim && in_limits(
            t2.pos(i),
        ) by {
            assert(t0.pos(i).len() == t0.dim && in_limits(t0.pos(i)));
        }
        assert(t2.parent_of(0) is None && t2.cost_of(0) == 0 && t2.depth_of(0) == 0);
        assert forall|i: int|
            1 <= i < t2.count() implies (#[trigger] t2.parent_of(i)) is Some && 0 <= t2.par(i)
            < t2.count() by {
            if i != ni {
                assert(t0.parent_of(i) is Some && 0 <= t0.par(i) < t0.count());
            }
        }
        assert forall|i: int|
            1 <= i < t2.count() implies #[trigger] t2.depth_of(i) == t2.depth_of(t2.par(i)) + 1
            && t2.cost_of(i) == t2.cost_of(t2.par(i)) + dist(t2.pos(t2.par(i)), t2.pos(i)) by {
            t2.lemma_rewire_chain(t0, near, newi, oldp, sub, dd, delta, i);
        }
        assert forall|i: int| 0 <= i < t2.count() implies #[trigger] t2.kids_ok(i) by {
            t2.lemma_rewire_kids_ok(t0, near, newi, oldp, kk, i);
        }
        assert forall|i: int|
            0 <= i < t0.count() implies #[trigger] t2.cost_of(i) <= t0.cost_of(i) by {
            if sub.contains(i) {
                assert(t2.cost_of(i) == t0.cost_of(i) + delta);
            }
        }
    }

    /// After the rewiring surgery, each non-root node's ghost depth
    /// and cost still extend its parent's by one step and by the
    /// connecting edge's distance.
    #[verifier::rlimit(100)]
    #[verifier::spinoff_prover]
    proof fn lemma_rewire_chain(
        &self,
        t0: Tree,
        near: usize,
        newi: usize,
        oldp: usize,
        sub: Set<int>,
        dd: int,
        delta: int,
        i: int,
    )
        requires
            t0.wf(),
            1 <= (near as int) < t0.count(),
            0 <= (newi as int) < t0.count(),
            0 <= (oldp as int) < t0.count(),
            near != newi,
            near != oldp,
            newi != oldp,
            t0.par(near as int) == oldp as int,
            !t0.in_subtree(near as int, newi as int),
            sub == Set::new(|x: int| 0 <= x < t0.count() && t0.in_subtree(near as int, x)),
            dd == t0.depth_of(newi as int) + 1 - t0.depth_of(near as int),
            delta == t0.cost_of(newi as int) + dist(
                t0.pos(newi as int),
                t0.pos(near as int),
            ) - t0.cost_of(near as int),
            self.count() == t0.count(),
            self.depth@.len() == t0.count(),
            forall|j: int| 0 <= j < t0.count() ==> #[trigger] self.pos(j) == t0.pos(j),
            forall|j: int|
                0 <= j < t0.count() && j != near as int ==> #[trigger] self.parent_of(j)
                    == t0.parent_of(j),
            self.parent_of(near as int) == Some(newi),
            forall|j: int|
                0 <= j < t0.count() ==> #[trigger] self.depth_of(j) == (if sub.contains(j) {
                    (t0.depth_of(j) + dd) as nat
                } else {
                    t0.depth_of(j)
                }),
            forall|j: int|
                0 <= j < t0.count() ==> #[trigger] self.cost_of(j) == (if sub.contains(j) {
                    t0.cost_of(j) + delta
                } else {
                    t0.cost_of(j)
                }),
            1 <= i < t0.count(),
        ensures
            self.depth_of(i) == self.depth_of(self.par(i)) + 1,
            self.cost_of(i) == self.cost_of(self.par(i)) + dist(
                self.pos(self.par(i)),
                self.pos(i),
            ),
    {
        let t2 = *self;
        let ni = near as int;
        let wi = newi as int;
        let oi = oldp as int;
        assert(sub.contains(ni));
        assert(!sub.contains(wi));
        if i == ni {
            assert(t2.par(ni) == wi);
            assert(t2.depth_of(ni) == t0.depth_of(wi) + 1);
            assert(t2.depth_of(wi) == t0.depth_of(wi));
            assert(t2.cost_of(ni) == t0.cost_of(ni) + delta);
            assert(t2.cost_of(wi) == t0.cost_of(wi));
        } else {
            let p = t0.par(i);
            assert(t2.parent_of(i) == t0.parent_of(i));
            assert(t2.par(i) == p);
            assert(t0.depth_of(i) == t0.depth_of(p) + 1);
            assert(t0.cost_of(i) == t0.cost_of(p) + dist(t0.pos(p), t0.pos(i)));
            if sub.contains(i) {
                assert(t0.in_subtree(ni, i) && i != ni);
                assert(t0.in_subtree(ni, p));
                assert(sub.contains(p));
                t0.lemma_in_subtree_depth(ni, i);
                t0.lemma_in_subtree_depth(ni, p);
            } else {
                assert(!sub.contains(p)) by {
                    if sub.contains(p) {
                        assert(t0.in_subtree(ni, p));
                        assert(t0.in_subtree(ni, i));
                    }
                }
            }
        }
    }

    /// The children lists still mirror the parent references after
    /// the rewiring surgery.
    #[verifier::rlimit(100)]
    #[verifier::spinoff_prover]
    proof fn lemma_rewire_kids_ok(
        &self,
        t0: Tree,
        near: usize,
        newi: usize,
        oldp: usize,
        kk: int,
        i: int,
    )
        requires
            t0.wf(),
            1 <= (near as int) < t0.count(),
            0 <= (newi as int) < t0.count(),
            0 <= (oldp as int) < t0.count(),
            near != newi,
            near != oldp,
            newi != oldp,
            t0.par(near as int) == oldp as int,
            0 <= kk < t0.kids(oldp as int).len(),
            t0.kids(oldp as int)[kk] == near,
            self.count() == t0.count(),
            forall|j: int|
                0 <= j < t0.count() && j != near as int ==> #[trigger] self.parent_of(j)
                    == t0.parent_of(j),
            self.parent_of(near as int) == Some(newi),
            self.kids(oldp as int) == t0.kids(oldp as int).remove(kk),
            self.kids(newi as int) == t0.kids(newi as int).push(near),
            forall|j: int|
                0 <= j < t0.count() && j != oldp as int && j != newi as int
                    ==> #[trigger] self.kids(j) == t0.kids(j),
            0 <= i < t0.count(),
        ensures
            self.kids_ok(i),
    {
        let t2 = *self;
        let ni = near as int;
        let wi = newi as int;
        let oi = oldp as int;
        assert(t0.kids_ok(i));
        assert forall|j: int|
            1 <= j < t0.count() && j != ni implies #[trigger] t2.par(j) == t0.par(j) by {
            assert(t2.parent_of(j) == t0.parent_of(j));
        }
        assert(t2.par(ni) == wi);
        if i == oi {
            let ko = t0.kids(oi);
            let kn = t2.kids(oi);
            assert(kn == ko.remove(kk));
            assert(kn.len() == ko.len() - 1);
            assert forall|k2: int|
                0 <= k2 < kn.len() implies 1 <= (#[trigger] kn[k2]) as int && ((kn[k2] as int)
                < t2.count()) && t2.par(kn[k2] as int) == oi by {
                if k2 < kk {
                    assert(kn[k2] == ko[k2]);
                    assert(ko[k2] != ko[kk]);
                } else {
                    assert(kn[k2] == ko[k2 + 1]);
                    assert(ko[k2 + 1] != ko[kk]);
                }
            }
            assert forall|k1: int, k2: int| 0 <= k1 < k2 < kn.len() implies kn[k1] != kn[k2] by {
                assert(kn[k1] == if k1 < kk {
                    ko[k1]
                } else {
                    ko[k1 + 1]
                });
                assert(kn[k2] == if k2 < kk {
                    ko[k2]
                } else {
                    ko[k2 + 1]
                });
            }
            assert forall|j: int|
                1 <= j < t2.count() && t2.par(j) == oi implies kn.contains(j as usize) by {
                assert(j != ni);
                assert(t0.par(j) == oi);
                assert(ko.contains(j as usize));
                let m2 = choose|m2: int| 0 <= m2 < ko.len() && ko[m2] == j as usize;
                assert(m2 != kk);
                if m2 < kk {
                    assert(kn[m2] == j as usize);
                } else {
                    assert(kn[m2 - 1] == j as usize);
                }
            }
        } else if i == wi {
            let ko = t0.kids(wi);
            let kn = t2.kids(wi);
            assert(kn == ko.push(near));
            assert forall|k2: int|
                0 <= k2 < kn.len() implies 1 <= (#[trigger] kn[k2]) as int && ((kn[k2] as int)
                < t2.count()) && t2.par(kn[k2] as int) == wi by {
                if k2 < ko.len() {
                    assert(kn[k2] == ko[k2]);
                    assert((ko[k2] as int) != ni) by {
                        if (ko[k2] as int) == ni {
                            assert(t0.par(ni) == wi);
                        }
                    }
                } else {
                    assert(kn[k2] == near);
                }
            }
            assert forall|k1: int, k2: int| 0 <= k1 < k2 < kn.len() implies kn[k1] != kn[k2] by {
                if k2 == ko.len() {
                    assert(kn[k1] == ko[k1]);
                    assert((ko[k1] as int) != ni) by {
                        if (ko[k1] as int) == ni {
                            assert(t0.par(ni) == wi);
                        }
                    }
                }
            }
            assert forall|j: int|
                1 <= j < t2.count() && t2.par(j) == wi implies kn.contains(j as usize) by {
                if j == ni {
                    assert(kn[ko.len() as int] == near);
                } else {
                    assert(t0.par(j) == wi);
                    assert(ko.contains(j as usize));
                    let m2 = choose|m2: int| 0 <= m2 < ko.len() && ko[m2] == j as usize;
                    assert(kn[m2] == j as usize);
                }
            }
        } else {
            assert(t2.kids(i) == t0.kids(i));
            assert forall|k2: int|
                0 <= k2 < t2.kids(i).len() implies 1 <= (#[trigger] t2.kids(i)[k2]) as int && ((
            t2.kids(i)[k2] as int) < t2.count()) && t2.par(t2.kids(i)[k2] as int) == i by {
                assert((t0.kids(i)[k2] as int) != ni) by {
                    if (t0.kids(i)[k2] as int) == ni {
                        assert(t0.par(ni) == i);
                        assert(i == oi);
                    }
                }
            }
            assert forall|j: int|
                1 <= j < t2.count() && t2.par(j) == i implies t2.kids(i).contains(j as usize) by {
                assert(j != ni) by {
                    if j == ni {
                        assert(t2.par(ni) == wi);
                    }
                }
                assert(t0.par(j) == i);
                assert(t0.kids(i).contains(j as usize));
            }
        }
    }


    /// The sequence of positions along the tree path from the root to
    /// node `g`, both inclusive.
    pub open spec fn path_to(&self, g: int) -> Seq<Seq<i64>>
        decreases self.depth_of(g)
            when self.wf() && 0 <= g < self.count()
    {
        if g == 0 {
            seq![self.pos(0)]
        } else {
            self.path_to(self.par(g)).push(self.pos(g))
        }
    }

    /// Shape of a root-to-node path: it starts at the root position,
    /// ends at the node's position, and every element is some node's
    /// position.
    pub proof fn lemma_path_props(&self, g: int)
        requires
            self.wf(),
            0 <= g < self.count(),
        ensures
            self.path_to(g).len() == self.depth_of(g) + 1,
            self.path_to(g)[0] == self.pos(0),
            self.path_to(g).last() == self.pos(g),
            forall|k: int|
                0 <= k < self.path_to(g).len() ==> exists|i: int|
                    0 <= i < self.count() && #[trigger] self.path_to(g)[k] == self.pos(i),
        decreases self.depth_of(g),
    {
        if g == 0 {
            assert(self.path_to(0)[0] == self.pos(0));
        } else {
            self.lemma_path_props(self.par(g));
            assert forall|k: int| 0 <= k < self.path_to(g).len() implies exists|i: int|
                0 <= i < self.count() && #[trigger] self.path_to(g)[k] == self.pos(i) by {
                if k < self.path_to(g).len() - 1 {
                    assert(self.path_to(g)[k] == self.path_to(self.par(g))[k]);
                } else {
                    assert(self.path_to(g)[k] == self.pos(g));
                }
            }
        }
    }

    /// When every tree edge spans a squared distance of at most
    /// `bound * bound`, consecutive positions along any root-to-node
    /// path lie within `bound` of each other.
    pub proof fn lemma_path_edges(&self, g: int, bound: int)
        requires
            self.wf(),
            0 <= g < self.count(),
            bound >= 0,
            forall|i: int|
                1 <= i < self.count() ==> sq_dist(self.pos(self.par(i)), #[trigger] self.pos(i))
                    <= bound * bound,
        ensures
            forall|k: int|
                0 <= k < self.path_to(g).len() - 1 ==> dist(
                    #[trigger] self.path_to(g)[k],
                    self.path_to(g)[k + 1],
                ) <= bound,
        decreases self.depth_of(g),
    {
        if g == 0 {
        } else {
            let p = self.par(g);
            self.lemma_path_edges(p, bound);
            self.lemma_path_props(p);
            crate::geom::lemma_sq_le_dist_le(self.pos(p), self.pos(g), bound);
            assert forall|k: int| 0 <= k < self.path_to(g).len() - 1 implies dist(
                #[trigger] self.path_to(g)[k],
                self.path_to(g)[k + 1],
            ) <= bound by {
                if k < self.path_to(g).len() - 2 {
                    assert(self.path_to(g)[k] == self.path_to(p)[k]);
                    assert(self.path_to(g)[k + 1] == self.path_to(p)[k + 1]);
                } else {
                    assert(self.path_to(g)[k] == self.path_to(p).last());
                    assert(self.path_to(g)[k + 1] == self.pos(g));
                }
            }
        }
    }

    /// The positions along the path from the root to node `g`,
    /// obtained by walking parent references backward from `g` and
    /// reversing the collected sequence.
    pub fn extract_path_to(&self, g: usize) -> (r: Vec<Vec<i64>>)
        requires
            self.wf(),
            g < self.count(),
        ensures
            r@.len() == self.path_to(g as int).len(),
            forall|k: int|
                0 <= k < r@.len() ==> (#[trigger] r@[k])@ == self.path_to(g as int)[k],
    {
        let ghost whole = self.path_to(g as int);
        let mut rev: Vec<Vec<i64>> = Vec::new();
        let mut cur: usize = g;
        loop
            invariant_except_break
                self.wf(),
                g < self.count(),
                cur < self.count(),
                whole == self.path_to(g as int),
                whole =~= self.path_to(cur as int) + rev@.map_values(
                    |v: Vec<i64>| v@,
                ).reverse(),
            ensures
                whole =~= rev@.map_values(|v: Vec<i64>| v@).reverse(),
            decreases self.depth_of(cur as int),
        {
            let ghost rev0 = rev@;
            rev.push(self.nodes[cur].position.clone());
            proof {
                assert(rev@[rev0.len() as int]@ =~= self.pos(cur as int));
                assert(rev@.map_values(|v: Vec<i64>| v@) =~= rev0.map_values(
                    |v: Vec<i64>| v@,
                ).push(self.pos(cur as int)));
                assert(rev@.map_values(|v: Vec<i64>| v@).reverse() =~= seq![
                    self.pos(cur as int),
                ] + rev0.map_values(|v: Vec<i64>| v@).reverse());
            }
            match self.nodes[cur].parent {
                Option::Some(p) => {
                    proof {
                        assert(self.parent_of(cur as int) is Some);
                        assert(self.path_to(cur as int) =~= self.path_to(self.par(cur as int))
                            + seq![self.pos(cur as int)]);
                    }
                    cur = p;
                },
                Option::None => {
                    proof {
                        assert(cur == 0);
                        assert(self.path_to(0) =~= seq![self.pos(0)]);
                    }
                    break ;
                },
            }
        }
        let mut out: Vec<Vec<i64>> = Vec::new();
        let ghost views = rev@.map_values(|v: Vec<i64>| v@);
        while rev.len() > 0
            invariant
                whole =~= views.reverse(),
                views == rev@.map_values(|v: Vec<i64>| v@) + out@.map_values(
                    |v: Vec<i64>| v@,
                ).reverse(),
                out@.len() + rev@.len() == whole.len(),
                forall|k: int|
                    0 <= k < out@.len() ==> (#[trigger] out@[k])@ == whole[k],
            decreases rev@.len(),
        {
            let ghost rev0 = rev@;
            let ghost out0 = out@;
            let v = rev.pop().unwrap();
            out.push(v);
            proof {
                assert(rev@ =~= rev0.drop_last());
                assert(out@ =~= out0.push(rev0.last()));
                assert(rev@.map_values(|v: Vec<i64>| v@) =~= rev0.map_values(
                    |v: Vec<i64>| v@,
                ).drop_last());
                assert(out@.map_values(|v: Vec<i64>| v@) =~= out0.map_values(
                    |v: Vec<i64>| v@,
                ).push(rev0.last()@));
                assert(out@.map_values(|v: Vec<i64>| v@).reverse() =~= seq![rev0.last()@]
                    + out0.map_values(|v: Vec<i64>| v@).reverse());
                assert(views =~= rev@.map_values(|v: Vec<i64>| v@) + out@.map_values(
                    |v: Vec<i64>| v@,
                ).reverse());
                let m = out@.len() - 1;
                assert(out@[m]@ == rev0.last()@);
                assert(views.reverse()[m] == views[views.len() - 1 - m]);
            }
        }
        proof {
            assert(rev@.map_values(|v: Vec<i64>| v@).len() == 0);
        }
        out
    }
}

} // verus!
