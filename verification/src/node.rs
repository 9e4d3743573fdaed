use vstd::prelude::*;

verus! {

/// Position of a node inside a `Tree`'s arena.
pub type TreeIndex = usize;

/// One node of the network: its activation value, the nodes it feeds, and
/// the weight of each of those edges (`weights[k]` belongs to `next_nodes[k]`).
#[derive(Clone, Debug)]
pub struct TreeNode<T> {
    pub value: T,
    pub next_nodes: Vec<Option<TreeIndex>>,
    pub weights: Vec<T>,
}

impl<T> TreeNode<T> {
    /// Builds a node from its parts, unchanged.
    pub fn new(value: T, next_nodes: Vec<Option<TreeIndex>>, weights: Vec<T>) -> (node: Self)
        ensures
            node.value == value,
            node.next_nodes@ == next_nodes@,
            node.weights@ == weights@,
    {
        TreeNode { value: value, next_nodes: next_nodes, weights: weights }
    }
}

} // verus!
