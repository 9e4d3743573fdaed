use vstd::prelude::*;
use crate::node::TreeNode;

verus! {

/// `arena` with the value of the node at position `i` replaced by `x`.
pub open spec fn with_value<T>(arena: Seq<Option<TreeNode<T>>>, i: int, x: T) -> Seq<Option<TreeNode<T>>> {
    let n = arena[i].unwrap();
    arena.update(i, Some(TreeNode { value: x, next_nodes: n.next_nodes, weights: n.weights }))
}

/// Whether `a` and `b` have nodes at the same positions, with the same edges
/// and weights (their values may differ).
pub open spec fn same_shape<T>(a: Seq<Option<TreeNode<T>>>, b: Seq<Option<TreeNode<T>>>) -> bool {
    &&& a.len() == b.len()
    &&& forall|i: int| 0 <= i < a.len() ==> (#[trigger] a[i] is Some <==> b[i] is Some)
    &&& forall|i: int| 0 <= i < a.len() && #[trigger] a[i] is Some ==> {
        &&& a[i].unwrap().next_nodes@ == b[i].unwrap().next_nodes@
        &&& a[i].unwrap().weights@ == b[i].unwrap().weights@
    }
}

pub proof fn lemma_same_shape_refl<T>(a: Seq<Option<TreeNode<T>>>)
    ensures
        same_shape(a, a),
{
}

pub proof fn lemma_same_shape_trans<T>(a: Seq<Option<TreeNode<T>>>, b: Seq<Option<TreeNode<T>>>, c: Seq<Option<TreeNode<T>>>)
    requires
        same_shape(a, b),
        same_shape(b, c),
    ensures
        same_shape(a, c),
{
    assert forall|i: int| 0 <= i < a.len() && #[trigger] a[i] is Some implies {
        &&& a[i].unwrap().next_nodes@ == c[i].unwrap().next_nodes@
        &&& a[i].unwrap().weights@ == c[i].unwrap().weights@
    } by {
        assert(b[i] is Some);
    }
}

pub proof fn lemma_same_shape_sym<T>(a: Seq<Option<TreeNode<T>>>, b: Seq<Option<TreeNode<T>>>)
    requires
        same_shape(a, b),
    ensures
        same_shape(b, a),
{
    assert forall|i: int| 0 <= i < b.len() && #[trigger] b[i] is Some implies {
        &&& b[i].unwrap().next_nodes@ == a[i].unwrap().next_nodes@
        &&& b[i].unwrap().weights@ == a[i].unwrap().weights@
    } by {
        assert(a[i] is Some);
    }
}

pub proof fn lemma_with_value_shape<T>(a: Seq<Option<TreeNode<T>>>, i: int, x: T)
    requires
        present(a, i),
    ensures
        same_shape(with_value(a, i, x), a),
        present(with_value(a, i, x), i),
        with_value(a, i, x)[i].unwrap().value == x,
{
    let b = with_value(a, i, x);
    assert forall|j: int| 0 <= j < b.len() && #[trigger] b[j] is Some implies {
        &&& b[j].unwrap().next_nodes@ == a[j].unwrap().next_nodes@
        &&& b[j].unwrap().weights@ == a[j].unwrap().weights@
    } by {
        if j == i {
        }
    }
}

/// The weights of each node of `arena` (`None` where there is no node).
pub open spec fn weights_of<T>(arena: Seq<Option<TreeNode<T>>>) -> Seq<Option<Seq<T>>> {
    Seq::new(arena.len(), |i: int| if arena[i] is Some { Some(arena[i].unwrap().weights@) } else { None })
}

/// Whether `a` and `b` have nodes at the same positions, with the same
/// values, edges and numbers of weights (the weights themselves may differ).
pub open spec fn same_but_weights<T>(a: Seq<Option<TreeNode<T>>>, b: Seq<Option<TreeNode<T>>>) -> bool {
    &&& a.len() == b.len()
    &&& forall|i: int| 0 <= i < a.len() ==> (#[trigger] a[i] is Some <==> b[i] is Some)
    &&& forall|i: int| 0 <= i < a.len() && #[trigger] a[i] is Some ==> {
        &&& a[i].unwrap().next_nodes@ == b[i].unwrap().next_nodes@
        &&& a[i].unwrap().value == b[i].unwrap().value
        &&& a[i].unwrap().weights@.len() == b[i].unwrap().weights@.len()
    }
}

pub proof fn lemma_same_but_weights_refl<T>(a: Seq<Option<TreeNode<T>>>)
    ensures
        same_but_weights(a, a),
{
}

pub proof fn lemma_same_but_weights_trans<T>(a: Seq<Option<TreeNode<T>>>, b: Seq<Option<TreeNode<T>>>, c: Seq<Option<TreeNode<T>>>)
    requires
        same_but_weights(a, b),
        same_but_weights(b, c),
    ensures
        same_but_weights(a, c),
{
    assert forall|i: int| 0 <= i < a.len() && #[trigger] a[i] is Some implies {
        &&& a[i].unwrap().next_nodes@ == c[i].unwrap().next_nodes@
        &&& a[i].unwrap().value == c[i].unwrap().value
        &&& a[i].unwrap().weights@.len() == c[i].unwrap().weights@.len()
    } by {
        assert(b[i] is Some);
    }
}

/// Whether `arena` has a node at position `i`.
pub open spec fn present<T>(arena: Seq<Option<TreeNode<T>>>, i: int) -> bool {
    0 <= i < arena.len() && arena[i] is Some
}

/// What `node_at` reads at position `i` of `arena`: the node there, or
/// `None` when `i` is out of range or the slot is empty.
pub open spec fn lookup<T>(arena: Seq<Option<TreeNode<T>>>, i: int) -> Option<TreeNode<T>> {
    if 0 <= i < arena.len() {
        arena[i]
    } else {
        None
    }
}

} // verus!
