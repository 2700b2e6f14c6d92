use vstd::prelude::*;

use crate::geom::{dist, in_limits, sq_dist, MAX_DIM, MAX_EDGE};

verus! {

/// One vertex of an exploration tree: a position, the index of the
/// parent node (absent only for the root), the indices of the child
/// nodes, and the accumulated cost from the root, measured as the sum
/// of the edge distances along the tree path.
pub struct Node {
    pub position: Vec<i64>,
    pub parent: Option<usize>,
    pub children: Vec<usize>,
    pub cost: i64,
}

impl Node {
    /// A fresh, unattached node at `position`.
    pub fn new(position: Vec<i64>) -> (n: Node)
        ensures
            n.position == position,
            n.parent is None,
            n.children@.len() == 0,
            n.cost == 0,
    {
        Node { position, parent: None, children: Vec::new(), cost: 0 }
    }

    /// The per-axis difference `node - self`.
    pub fn calc_difference(&self, node: &Node) -> (r: Vec<i64>)
        requires
            self.position@.len() == node.position@.len(),
            self.position@.len() <= MAX_DIM,
            in_limits(self.position@),
            in_limits(node.position@),
        ensures
            r@.len() == self.position@.len(),
            forall|k: int|
                0 <= k < r@.len() ==> #[trigger] r@[k] == node.position@[k] - self.position@[k],
    {
        let n = self.position.len();
        let mut r: Vec<i64> = Vec::new();
        let mut k: usize = 0;
        while k < n
            invariant
                0 <= k <= n,
                n == self.position@.len() == node.position@.len(),
                in_limits(self.position@),
                in_limits(node.position@),
                r@.len() == k,
                forall|j: int|
                    0 <= j < k ==> #[trigger] r@[j] == node.position@[j] - self.position@[j],
            decreases n - k,
        {
            r.push(node.position[k] - self.position[k]);
            k = k + 1;
        }
        r
    }

    /// The Euclidean distance between `self` and `node`, rounded down
    /// to whole coordinate units.
    pub fn calc_distance(&self, node: &Node) -> (d: i64)
        requires
            self.position@.len() == node.position@.len(),
            self.position@.len() <= MAX_DIM,
            in_limits(self.position@),
            in_limits(node.position@),
        ensures
            d == dist(self.position@, node.position@),
            0 <= d <= MAX_EDGE,
    {
        crate::geom::dist_points(&self.position, &node.position)
    }

    /// The squared Euclidean distance between `self` and `node`.
    pub fn calc_sq_distance(&self, node: &Node) -> (s: i64)
        requires
            self.position@.len() == node.position@.len(),
            self.position@.len() <= MAX_DIM,
            in_limits(self.position@),
            in_limits(node.position@),
        ensures
            s == sq_dist(self.position@, node.position@),
            s >= 0,
    {
        crate::geom::sq_dist_points(&self.position, &node.position)
    }
}

impl Clone for Node {
    /// A deep copy of the node.
    fn clone(&self) -> (n: Node)
        ensures
            n.position@ == self.position@,
            n.parent == self.parent,
            n.children@ == self.children@,
            n.cost == self.cost,
    {
        let position = self.position.clone();
        let children = self.children.clone();
        proof {
            assert(position@ =~= self.position@);
            assert(children@ =~= self.children@);
        }
        Node { position, parent: self.parent, children, cost: self.cost }
    }
}

} // verus!
