use vstd::prelude::*;
use crate::shape::{
    with_value, same_shape, lemma_same_shape_refl, lemma_same_shape_trans, lemma_same_shape_sym,
    lemma_with_value_shape, present,
};
use crate::node::{TreeIndex, TreeNode};
use crate::tree::{Tree, copy_vec};

verus! {

/// The indices that node `i` of `arena` feeds.
pub open spec fn successors<T>(arena: Seq<Option<TreeNode<T>>>, i: int) -> Seq<Option<TreeIndex>> {
    arena[i].unwrap().next_nodes@
}

/// One step of the depth-first walk over `arena` with pending indices `stack`
/// (its top is the last element): indices of absent nodes are dropped from the
/// top until a present node is found; that node is the result, and its
/// successors are pushed in their order, so that the last of them is visited
/// first. With nothing left, the result is `None` and the stack stays empty.
pub open spec fn walk_step<T>(arena: Seq<Option<TreeNode<T>>>, stack: Seq<Option<TreeIndex>>)
    -> (Option<TreeIndex>, Seq<Option<TreeIndex>>)
    decreases stack.len(),
{
    if stack.len() == 0 {
        (None, stack)
    } else {
        let top = stack.last();
        let rest = stack.drop_last();
        if present(arena, top.unwrap() as int) {
            (top, rest + successors(arena, top.unwrap() as int))
        } else {
            walk_step(arena, rest)
        }
    }
}

/// Whether `walk_step` meets only indices, and no `None`, on its way to the
/// next present node (a `None` on the way is a slot the walk cannot follow).
pub open spec fn walk_step_defined<T>(arena: Seq<Option<TreeNode<T>>>, stack: Seq<Option<TreeIndex>>) -> bool
    decreases stack.len(),
{
    stack.len() == 0 || {
        &&& stack.last() is Some
        &&& (present(arena, stack.last().unwrap() as int) || walk_step_defined(arena, stack.drop_last()))
    }
}


/// Whether `f` may be called on any arguments and gives one result for each.
pub open spec fn is_function3<T, F: Fn(T, T, T) -> T>(f: F) -> bool {
    &&& forall|a: T, b: T, c: T| #[trigger] f.requires((a, b, c))
    &&& forall|a: T, b: T, c: T, r1: T, r2: T|
        #[trigger] f.ensures((a, b, c), r1) && #[trigger] f.ensures((a, b, c), r2) ==> r1 == r2
}

/// Whether `g` may be called on any argument and gives one result for each.
pub open spec fn is_function1<T, G: Fn(T) -> T>(g: G) -> bool {
    &&& forall|a: T| #[trigger] g.requires((a,))
    &&& forall|a: T, r1: T, r2: T| #[trigger] g.ensures((a,), r1) && #[trigger] g.ensures((a,), r2) ==> r1 == r2
}

/// The result of `f` on `(a, b, c)`.
pub open spec fn apply3<T, F: Fn(T, T, T) -> T>(f: F, a: T, b: T, c: T) -> T {
    choose|r: T| f.ensures((a, b, c), r)
}

/// The result of `g` on `a`.
pub open spec fn apply1<T, G: Fn(T) -> T>(g: G, a: T) -> T {
    choose|r: T| g.ensures((a,), r)
}

pub proof fn lemma_apply3<T, F: Fn(T, T, T) -> T>(f: F, a: T, b: T, c: T, r: T)
    requires
        is_function3(f),
        f.ensures((a, b, c), r),
    ensures
        r == apply3(f, a, b, c),
{
}

proof fn lemma_apply1<T, G: Fn(T) -> T>(g: G, a: T, r: T)
    requires
        is_function1(g),
        g.ensures((a,), r),
    ensures
        r == apply1(g, a),
{
}

/// How many edges of node `n` carry a weight: its targets paired with its
/// weights, up to the shorter of the two.
pub open spec fn edge_count<T>(n: TreeNode<T>) -> int {
    if n.next_nodes@.len() <= n.weights@.len() { n.next_nodes@.len() as int } else { n.weights@.len() as int }
}

/// The value of the node at position `i`.
pub open spec fn value_at<T>(arena: Seq<Option<TreeNode<T>>>, i: int) -> T {
    arena[i].unwrap().value
}

/// `arena` after the first `n` edges (`targets[k]`, `weights[k]`) of a node
/// whose value is `x` have each set their target's value `acc` to `mac(acc, x, weight)`,
/// one after the other.
pub open spec fn contribute<T, F: Fn(T, T, T) -> T>(
    arena: Seq<Option<TreeNode<T>>>, mac: F, x: T, targets: Seq<Option<TreeIndex>>, weights: Seq<T>, n: int,
) -> Seq<Option<TreeNode<T>>>
    decreases n,
{
    if n <= 0 {
        arena
    } else {
        let a = contribute(arena, mac, x, targets, weights, n - 1);
        let t = targets[n - 1].unwrap() as int;
        with_value(a, t, apply3(mac, value_at(a, t), x, weights[n - 1]))
    }
}

/// `arena` after every node of `stack`, from its last element to its first,
/// has fed its current value along its weighted edges.
pub open spec fn propagate<T, F: Fn(T, T, T) -> T>(
    arena: Seq<Option<TreeNode<T>>>, mac: F, stack: Seq<Option<TreeIndex>>,
) -> Seq<Option<TreeNode<T>>>
    decreases stack.len(),
{
    if stack.len() == 0 {
        arena
    } else {
        let c = stack.last().unwrap() as int;
        let node = arena[c].unwrap();
        propagate(contribute(arena, mac, node.value, node.next_nodes@, node.weights@, edge_count(node)), mac, stack.drop_last())
    }
}

/// `arena` after the nodes `idxs[0..n]`, one after the other, have had
/// their value replaced by `squish` of it.
pub open spec fn squish_all<T, G: Fn(T) -> T>(
    arena: Seq<Option<TreeNode<T>>>, squish: G, idxs: Seq<Option<TreeIndex>>, n: int,
) -> Seq<Option<TreeNode<T>>>
    decreases n,
{
    if n <= 0 {
        arena
    } else {
        let a = squish_all(arena, squish, idxs, n - 1);
        let t = idxs[n - 1].unwrap() as int;
        with_value(a, t, apply1(squish, value_at(a, t)))
    }
}

/// The values that the nodes `idxs[0..n]` have just after each is squished.
pub open spec fn activations<T, G: Fn(T) -> T>(
    arena: Seq<Option<TreeNode<T>>>, squish: G, idxs: Seq<Option<TreeIndex>>, n: int,
) -> Seq<T>
    decreases n,
{
    if n <= 0 {
        Seq::empty()
    } else {
        activations(arena, squish, idxs, n - 1).push(
            value_at(squish_all(arena, squish, idxs, n), idxs[n - 1].unwrap() as int),
        )
    }
}

pub proof fn lemma_activations_len<T, G: Fn(T) -> T>(
    arena: Seq<Option<TreeNode<T>>>, squish: G, idxs: Seq<Option<TreeIndex>>, n: int,
)
    requires
        n >= 0,
    ensures
        activations(arena, squish, idxs, n).len() == n,
    decreases n,
{
    if n > 0 {
        lemma_activations_len(arena, squish, idxs, n - 1);
    }
}

/// Whether every entry of `idxs` is the index of a present node.
pub open spec fn all_present<T>(arena: Seq<Option<TreeNode<T>>>, idxs: Seq<Option<TreeIndex>>) -> bool {
    forall|j: int| 0 <= j < idxs.len() ==> #[trigger] idxs[j] is Some && present(arena, idxs[j].unwrap() as int)
}

/// Whether every weighted edge of the node at position `c` leads to a present node.
pub open spec fn edges_present<T>(arena: Seq<Option<TreeNode<T>>>, c: int) -> bool {
    all_present(arena, arena[c].unwrap().next_nodes@.take(edge_count(arena[c].unwrap())))
}

/// The layer that follows `crnt`: the nodes that its first node feeds.
pub open spec fn next_layer_of<T>(arena: Seq<Option<TreeNode<T>>>, crnt: Seq<Option<TreeIndex>>) -> Seq<Option<TreeIndex>> {
    successors(arena, crnt[0].unwrap() as int)
}

/// Whether `next_layer` can run on layer `crnt`: the layer is not empty, all
/// its nodes are present, their weighted edges and the following layer lead
/// to present nodes.
pub open spec fn layer_defined<T>(arena: Seq<Option<TreeNode<T>>>, crnt: Seq<Option<TreeIndex>>) -> bool {
    &&& crnt.len() > 0
    &&& all_present(arena, crnt)
    &&& forall|i: int| 0 <= i < crnt.len() ==> edges_present(arena, #[trigger] crnt[i].unwrap() as int)
    &&& all_present(arena, next_layer_of(arena, crnt))
}

/// The arena after one step of `next_layer` from layer `crnt`.
pub open spec fn layer_arena<T, F: Fn(T, T, T) -> T, G: Fn(T) -> T>(
    arena: Seq<Option<TreeNode<T>>>, mac: F, squish: G, crnt: Seq<Option<TreeIndex>>,
) -> Seq<Option<TreeNode<T>>> {
    let nx = next_layer_of(arena, crnt);
    squish_all(propagate(arena, mac, crnt), squish, nx, nx.len() as int)
}

/// The activations of the following layer after one step of `next_layer`
/// from layer `crnt`.
pub open spec fn layer_output<T, F: Fn(T, T, T) -> T, G: Fn(T) -> T>(
    arena: Seq<Option<TreeNode<T>>>, mac: F, squish: G, crnt: Seq<Option<TreeIndex>>,
) -> Seq<T> {
    let nx = next_layer_of(arena, crnt);
    activations(propagate(arena, mac, crnt), squish, nx, nx.len() as int)
}


pub proof fn lemma_shape_present<T>(a: Seq<Option<TreeNode<T>>>, b: Seq<Option<TreeNode<T>>>)
    requires
        same_shape(a, b),
    ensures
        forall|i: int| present(a, i) <==> #[trigger] present(b, i),
        forall|s: Seq<Option<TreeIndex>>| all_present(a, s) <==> #[trigger] all_present(b, s),
        forall|c: int| present(a, c) ==> (edges_present(a, c) <==> #[trigger] edges_present(b, c)),
        forall|c: int| present(a, c) ==> #[trigger] successors(a, c) == successors(b, c),
        forall|c: int| present(a, c) ==> #[trigger] edge_count(a[c].unwrap()) == edge_count(b[c].unwrap()),
{
    assert forall|i: int| present(a, i) <==> #[trigger] present(b, i) by {
        if 0 <= i < a.len() {
            assert(a[i] is Some <==> b[i] is Some);
        }
    }
    assert forall|s: Seq<Option<TreeIndex>>| all_present(a, s) <==> #[trigger] all_present(b, s) by {
        if all_present(a, s) {
            assert forall|j: int| 0 <= j < s.len() implies #[trigger] s[j] is Some && present(b, s[j].unwrap() as int) by {
                assert(present(a, s[j].unwrap() as int));
            }
        }
        if all_present(b, s) {
            assert forall|j: int| 0 <= j < s.len() implies #[trigger] s[j] is Some && present(a, s[j].unwrap() as int) by {
                assert(present(b, s[j].unwrap() as int));
            }
        }
    }
    assert forall|c: int| present(a, c) implies #[trigger] edge_count(a[c].unwrap()) == edge_count(b[c].unwrap()) by {
        assert(a[c] is Some);
    }
    assert forall|c: int| present(a, c) implies #[trigger] successors(a, c) == successors(b, c) by {
        assert(a[c] is Some);
    }
    assert forall|c: int| present(a, c) implies (edges_present(a, c) <==> #[trigger] edges_present(b, c)) by {
        assert(a[c] is Some);
        assert(a[c].unwrap().next_nodes@ == b[c].unwrap().next_nodes@);
        assert(edge_count(a[c].unwrap()) == edge_count(b[c].unwrap()));
    }
}

proof fn lemma_contribute_shape<T, F: Fn(T, T, T) -> T>(
    arena: Seq<Option<TreeNode<T>>>, mac: F, x: T, targets: Seq<Option<TreeIndex>>, weights: Seq<T>, n: int,
)
    requires
        0 <= n <= targets.len(),
        n <= weights.len(),
        all_present(arena, targets.take(n)),
    ensures
        same_shape(contribute(arena, mac, x, targets, weights, n), arena),
    decreases n,
{
    if n <= 0 {
        lemma_same_shape_refl(arena);
    } else {
        assert(all_present(arena, targets.take(n - 1))) by {
            assert forall|j: int| 0 <= j < n - 1 implies #[trigger] targets.take(n - 1)[j] is Some
                && present(arena, targets.take(n - 1)[j].unwrap() as int) by {
                assert(targets.take(n)[j] == targets[j]);
            }
        }
        lemma_contribute_shape(arena, mac, x, targets, weights, n - 1);
        let a = contribute(arena, mac, x, targets, weights, n - 1);
        let t = targets[n - 1].unwrap() as int;
        assert(targets.take(n)[n - 1] == targets[n - 1]);
        lemma_shape_present(a, arena);
        assert(present(a, t));
        lemma_with_value_shape(a, t, apply3(mac, value_at(a, t), x, weights[n - 1]));
        lemma_same_shape_trans(contribute(arena, mac, x, targets, weights, n), a, arena);
    }
}

proof fn lemma_squish_shape<T, G: Fn(T) -> T>(
    arena: Seq<Option<TreeNode<T>>>, squish: G, idxs: Seq<Option<TreeIndex>>, n: int,
)
    requires
        0 <= n <= idxs.len(),
        all_present(arena, idxs),
    ensures
        same_shape(squish_all(arena, squish, idxs, n), arena),
    decreases n,
{
    if n <= 0 {
        lemma_same_shape_refl(arena);
    } else {
        lemma_squish_shape(arena, squish, idxs, n - 1);
        let a = squish_all(arena, squish, idxs, n - 1);
        let t = idxs[n - 1].unwrap() as int;
        lemma_shape_present(a, arena);
        assert(idxs[n - 1] is Some && present(arena, t));
        lemma_with_value_shape(a, t, apply1(squish, value_at(a, t)));
        lemma_same_shape_trans(squish_all(arena, squish, idxs, n), a, arena);
    }
}

pub proof fn lemma_propagate_shape<T, F: Fn(T, T, T) -> T>(
    arena: Seq<Option<TreeNode<T>>>, mac: F, stack: Seq<Option<TreeIndex>>,
)
    requires
        all_present(arena, stack),
        forall|i: int| 0 <= i < stack.len() ==> edges_present(arena, #[trigger] stack[i].unwrap() as int),
    ensures
        same_shape(propagate(arena, mac, stack), arena),
    decreases stack.len(),
{
    if stack.len() == 0 {
        lemma_same_shape_refl(arena);
    } else {
        let c = stack.last().unwrap() as int;
        let node = arena[c].unwrap();
        assert(stack[stack.len() - 1] is Some && present(arena, c));
        assert(edges_present(arena, c));
        let a = contribute(arena, mac, node.value, node.next_nodes@, node.weights@, edge_count(node));
        lemma_contribute_shape(arena, mac, node.value, node.next_nodes@, node.weights@, edge_count(node));
        lemma_shape_present(arena, a);
        let rest = stack.drop_last();
        assert(all_present(a, rest)) by {
            assert forall|j: int| 0 <= j < rest.len() implies #[trigger] rest[j] is Some && present(a, rest[j].unwrap() as int) by {
                assert(rest[j] == stack[j]);
                assert(present(arena, stack[j].unwrap() as int));
            }
        }
        assert forall|i: int| 0 <= i < rest.len() implies edges_present(a, #[trigger] rest[i].unwrap() as int) by {
            assert(rest[i] == stack[i]);
            assert(present(arena, stack[i].unwrap() as int));
            assert(edges_present(arena, stack[i].unwrap() as int));
        }
        lemma_propagate_shape(a, mac, rest);
        lemma_same_shape_trans(propagate(a, mac, rest), a, arena);
    }
}



/// Feeding along edges leaves the value at position `p` as it was, when no
/// edge leads to `p`.
proof fn lemma_contribute_frame<T, F: Fn(T, T, T) -> T>(
    arena: Seq<Option<TreeNode<T>>>, mac: F, x: T, targets: Seq<Option<TreeIndex>>, weights: Seq<T>, n: int, p: int,
)
    requires
        0 <= n <= targets.len(),
        n <= weights.len(),
        0 <= p < arena.len(),
        all_present(arena, targets.take(n)),
        forall|k: int| 0 <= k < n ==> #[trigger] targets[k].unwrap() as int != p,
    ensures
        value_at(contribute(arena, mac, x, targets, weights, n), p) == value_at(arena, p),
        contribute(arena, mac, x, targets, weights, n).len() == arena.len(),
    decreases n,
{
    if n > 0 {
        assert(all_present(arena, targets.take(n - 1))) by {
            assert forall|j: int| 0 <= j < n - 1 implies #[trigger] targets.take(n - 1)[j] is Some
                && present(arena, targets.take(n - 1)[j].unwrap() as int) by {
                assert(targets.take(n)[j] == targets[j]);
            }
        }
        lemma_contribute_frame(arena, mac, x, targets, weights, n - 1, p);
        lemma_contribute_shape(arena, mac, x, targets, weights, n - 1);
        assert(targets.take(n)[n - 1] == targets[n - 1]);
        assert(targets[n - 1].unwrap() as int != p);
    }
}

/// Squishing leaves the value at position `p` as it was, when `p` is not
/// among the squished nodes.
proof fn lemma_squish_frame<T, G: Fn(T) -> T>(
    arena: Seq<Option<TreeNode<T>>>, squish: G, idxs: Seq<Option<TreeIndex>>, n: int, p: int,
)
    requires
        0 <= n <= idxs.len(),
        0 <= p < arena.len(),
        all_present(arena, idxs),
        forall|k: int| 0 <= k < n ==> #[trigger] idxs[k].unwrap() as int != p,
    ensures
        value_at(squish_all(arena, squish, idxs, n), p) == value_at(arena, p),
    decreases n,
{
    if n > 0 {
        lemma_squish_frame(arena, squish, idxs, n - 1, p);
        lemma_squish_shape(arena, squish, idxs, n - 1);
        assert(idxs[n - 1] is Some && present(arena, idxs[n - 1].unwrap() as int));
        assert(idxs[n - 1].unwrap() as int != p);
    }
}

/// A step of `next_layer` from layer `crnt` leaves the value at position
/// `p` as it was, when no weighted edge of the layer leads to `p` and `p` is
/// not in the following layer.
pub proof fn lemma_layer_frame<T, F: Fn(T, T, T) -> T, G: Fn(T) -> T>(
    arena: Seq<Option<TreeNode<T>>>, mac: F, squish: G, crnt: Seq<Option<TreeIndex>>, p: int,
)
    requires
        layer_defined(arena, crnt),
        0 <= p < arena.len(),
        forall|i: int, k: int| 0 <= i < crnt.len() && 0 <= k < edge_count(arena[crnt[i].unwrap() as int].unwrap())
            ==> #[trigger] arena[crnt[i].unwrap() as int].unwrap().next_nodes@[k].unwrap() as int != p,
        forall|k: int| 0 <= k < next_layer_of(arena, crnt).len() ==> #[trigger] next_layer_of(arena, crnt)[k].unwrap() as int != p,
    ensures
        value_at(layer_arena(arena, mac, squish, crnt), p) == value_at(arena, p),
{
    lemma_propagate_frame(arena, mac, crnt, p);
    lemma_propagate_shape(arena, mac, crnt);
    let a1 = propagate(arena, mac, crnt);
    let nx = next_layer_of(arena, crnt);
    lemma_shape_present(a1, arena);
    lemma_squish_frame(a1, squish, nx, nx.len() as int, p);
}

proof fn lemma_propagate_frame<T, F: Fn(T, T, T) -> T>(
    arena: Seq<Option<TreeNode<T>>>, mac: F, stack: Seq<Option<TreeIndex>>, p: int,
)
    requires
        all_present(arena, stack),
        forall|i: int| 0 <= i < stack.len() ==> edges_present(arena, #[trigger] stack[i].unwrap() as int),
        0 <= p < arena.len(),
        forall|i: int, k: int| 0 <= i < stack.len() && 0 <= k < edge_count(arena[stack[i].unwrap() as int].unwrap())
            ==> #[trigger] arena[stack[i].unwrap() as int].unwrap().next_nodes@[k].unwrap() as int != p,
    ensures
        value_at(propagate(arena, mac, stack), p) == value_at(arena, p),
    decreases stack.len(),
{
    if stack.len() > 0 {
        let c = stack.last().unwrap() as int;
        let node = arena[c].unwrap();
        assert(stack[stack.len() - 1] is Some && present(arena, c));
        assert(edges_present(arena, c));
        let a = contribute(arena, mac, node.value, node.next_nodes@, node.weights@, edge_count(node));
        assert forall|k: int| 0 <= k < edge_count(node) implies #[trigger] node.next_nodes@[k].unwrap() as int != p by {
            assert(arena[stack[stack.len() - 1].unwrap() as int].unwrap().next_nodes@[k].unwrap() as int != p);
        }
        lemma_contribute_frame(arena, mac, node.value, node.next_nodes@, node.weights@, edge_count(node), p);
        lemma_contribute_shape(arena, mac, node.value, node.next_nodes@, node.weights@, edge_count(node));
        lemma_shape_present(arena, a);
        let rest = stack.drop_last();
        assert(all_present(a, rest)) by {
            assert forall|j: int| 0 <= j < rest.len() implies #[trigger] rest[j] is Some && present(a, rest[j].unwrap() as int) by {
                assert(rest[j] == stack[j]);
                assert(present(arena, stack[j].unwrap() as int));
            }
        }
        assert forall|i: int| 0 <= i < rest.len() implies edges_present(a, #[trigger] rest[i].unwrap() as int) by {
            assert(rest[i] == stack[i]);
            assert(present(arena, stack[i].unwrap() as int));
            assert(edges_present(arena, stack[i].unwrap() as int));
        }
        assert forall|i: int, k: int| 0 <= i < rest.len() && 0 <= k < edge_count(a[rest[i].unwrap() as int].unwrap())
            implies #[trigger] a[rest[i].unwrap() as int].unwrap().next_nodes@[k].unwrap() as int != p by {
            assert(rest[i] == stack[i]);
            let ci = stack[i].unwrap() as int;
            assert(present(arena, ci));
            assert(a[ci].unwrap().next_nodes@ == arena[ci].unwrap().next_nodes@);
            assert(arena[stack[i].unwrap() as int].unwrap().next_nodes@[k].unwrap() as int != p);
        }
        lemma_propagate_frame(a, mac, rest, p);
    }
}


/// The `k`-th activation of a layer step is the value that node `idxs[k]`
/// is left with, when no later node of the layer is the same node: the
/// activations come in the order of the layer's nodes, one per node.
pub proof fn law_activation_is_final_value<T, G: Fn(T) -> T>(
    arena: Seq<Option<TreeNode<T>>>, squish: G, idxs: Seq<Option<TreeIndex>>, n: int, k: int,
)
    requires
        0 <= k < n <= idxs.len(),
        all_present(arena, idxs),
        forall|j: int| k < j < n ==> #[trigger] idxs[j] != idxs[k],
    ensures
        activations(arena, squish, idxs, n)[k] == value_at(squish_all(arena, squish, idxs, n), idxs[k].unwrap() as int),
    decreases n,
{
    lemma_activations_len(arena, squish, idxs, n - 1);
    if k < n - 1 {
        law_activation_is_final_value(arena, squish, idxs, n - 1, k);
        lemma_squish_shape(arena, squish, idxs, n - 1);
        let a = squish_all(arena, squish, idxs, n - 1);
        lemma_shape_present(a, arena);
        assert(idxs[n - 1] is Some && present(arena, idxs[n - 1].unwrap() as int));
        assert(idxs[k] is Some && present(arena, idxs[k].unwrap() as int));
        assert(idxs[n - 1] != idxs[k]);
        assert(idxs[n - 1].unwrap() != idxs[k].unwrap());
    }
}

/// When a node with value `x` feeds its edges, and its targets are
/// distinct, the target of edge `k` ends with `mac(v, x, weights[k])`, `v`
/// being its value before: edge `k` carries weight `k`.
pub proof fn law_edge_uses_its_own_weight<T, F: Fn(T, T, T) -> T>(
    arena: Seq<Option<TreeNode<T>>>, mac: F, x: T, targets: Seq<Option<TreeIndex>>, weights: Seq<T>, n: int, k: int,
)
    requires
        0 <= k < n <= targets.len(),
        n <= weights.len(),
        all_present(arena, targets.take(n)),
        forall|i: int, j: int| 0 <= i < n && 0 <= j < n && i != j ==> #[trigger] targets[i] != #[trigger] targets[j],
    ensures
        value_at(contribute(arena, mac, x, targets, weights, n), targets[k].unwrap() as int)
            == apply3(mac, value_at(arena, targets[k].unwrap() as int), x, weights[k]),
    decreases n,
{
    assert(all_present(arena, targets.take(n - 1))) by {
        assert forall|j: int| 0 <= j < n - 1 implies #[trigger] targets.take(n - 1)[j] is Some
            && present(arena, targets.take(n - 1)[j].unwrap() as int) by {
            assert(targets.take(n)[j] == targets[j]);
        }
    }
    lemma_contribute_shape(arena, mac, x, targets, weights, n - 1);
    let a = contribute(arena, mac, x, targets, weights, n - 1);
    lemma_shape_present(a, arena);
    assert(targets.take(n)[n - 1] == targets[n - 1]);
    assert(targets.take(n)[k] == targets[k]);
    let t = targets[n - 1].unwrap() as int;
    let tk = targets[k].unwrap() as int;
    assert(present(arena, t) && present(arena, tk));
    if k == n - 1 {
        assert forall|q: int| 0 <= q < n - 1 implies #[trigger] targets[q].unwrap() as int != t by {
            assert(targets[q] != targets[n - 1]);
            assert(targets.take(n)[q] == targets[q]);
        }
        lemma_contribute_frame(arena, mac, x, targets, weights, n - 1, t);
    } else {
        law_edge_uses_its_own_weight(arena, mac, x, targets, weights, n - 1, k);
        assert(targets[n - 1] != targets[k]);
        assert(t != tk);
    }
}

/// Whether repeated `next_layer` steps from layer `crnt` each can run and
/// reach an empty layer within `n + 1` steps.
pub open spec fn drains<T>(arena: Seq<Option<TreeNode<T>>>, crnt: Seq<Option<TreeIndex>>, n: nat) -> bool
    decreases n,
{
    &&& layer_defined(arena, crnt)
    &&& (next_layer_of(arena, crnt).len() == 0 || (n > 0 && drains(arena, next_layer_of(arena, crnt), (n - 1) as nat)))
}

/// The arena and the last non-empty activations after `next_layer` steps from
/// layer `crnt` until the following layer is empty (at most `n + 1` steps);
/// `opts` are the activations seen so far.
pub open spec fn run_layers<T, F: Fn(T, T, T) -> T, G: Fn(T) -> T>(
    arena: Seq<Option<TreeNode<T>>>, mac: F, squish: G, crnt: Seq<Option<TreeIndex>>, opts: Seq<T>, n: nat,
) -> (Seq<Option<TreeNode<T>>>, Seq<T>)
    decreases n,
{
    let a2 = layer_arena(arena, mac, squish, crnt);
    let nx = next_layer_of(arena, crnt);
    if nx.len() == 0 || n == 0 {
        (a2, opts)
    } else {
        run_layers(a2, mac, squish, nx, layer_output(arena, mac, squish, crnt), (n - 1) as nat)
    }
}

pub proof fn lemma_layer_shape<T>(a: Seq<Option<TreeNode<T>>>, b: Seq<Option<TreeNode<T>>>, crnt: Seq<Option<TreeIndex>>)
    requires
        same_shape(a, b),
    ensures
        layer_defined(a, crnt) <==> layer_defined(b, crnt),
        layer_defined(a, crnt) ==> next_layer_of(a, crnt) == next_layer_of(b, crnt),
{
    lemma_shape_present(a, b);
    if layer_defined(a, crnt) {
        assert(crnt[0] is Some && present(a, crnt[0].unwrap() as int));
        assert(next_layer_of(a, crnt) == next_layer_of(b, crnt));
        assert forall|i: int| 0 <= i < crnt.len() implies edges_present(b, #[trigger] crnt[i].unwrap() as int) by {
            assert(crnt[i] is Some && present(a, crnt[i].unwrap() as int));
        }
    }
    if layer_defined(b, crnt) {
        assert(crnt[0] is Some && present(b, crnt[0].unwrap() as int));
        assert(present(a, crnt[0].unwrap() as int));
        assert(next_layer_of(a, crnt) == next_layer_of(b, crnt));
        assert forall|i: int| 0 <= i < crnt.len() implies edges_present(a, #[trigger] crnt[i].unwrap() as int) by {
            assert(crnt[i] is Some && present(b, crnt[i].unwrap() as int));
            assert(present(a, crnt[i].unwrap() as int));
        }
    }
}

pub proof fn lemma_drains_shape<T>(a: Seq<Option<TreeNode<T>>>, b: Seq<Option<TreeNode<T>>>, crnt: Seq<Option<TreeIndex>>, n: nat)
    requires
        same_shape(a, b),
        drains(a, crnt, n),
    ensures
        drains(b, crnt, n),
    decreases n,
{
    lemma_layer_shape(a, b, crnt);
    if next_layer_of(a, crnt).len() != 0 {
        lemma_drains_shape(a, b, next_layer_of(a, crnt), (n - 1) as nat);
    }
}

/// One `next_layer` step changes node values only: every node stays where
/// it is, with the same edges and weights.
pub proof fn lemma_layer_arena_shape<T, F: Fn(T, T, T) -> T, G: Fn(T) -> T>(
    arena: Seq<Option<TreeNode<T>>>, mac: F, squish: G, crnt: Seq<Option<TreeIndex>>,
)
    requires
        layer_defined(arena, crnt),
    ensures
        same_shape(layer_arena(arena, mac, squish, crnt), arena),
{
    lemma_propagate_shape(arena, mac, crnt);
    let a1 = propagate(arena, mac, crnt);
    let nx = next_layer_of(arena, crnt);
    lemma_shape_present(a1, arena);
    lemma_squish_shape(a1, squish, nx, nx.len() as int);
    lemma_same_shape_trans(layer_arena(arena, mac, squish, crnt), a1, arena);
}

/// Running the layers does not depend on how much more room `n` leaves than needed.
pub proof fn lemma_run_layers_fuel<T, F: Fn(T, T, T) -> T, G: Fn(T) -> T>(
    arena: Seq<Option<TreeNode<T>>>, mac: F, squish: G, crnt: Seq<Option<TreeIndex>>, opts: Seq<T>, n1: nat, n2: nat,
)
    requires
        drains(arena, crnt, n1),
        drains(arena, crnt, n2),
    ensures
        run_layers(arena, mac, squish, crnt, opts, n1) == run_layers(arena, mac, squish, crnt, opts, n2),
    decreases n1,
{
    let nx = next_layer_of(arena, crnt);
    if nx.len() != 0 {
        let a2 = layer_arena(arena, mac, squish, crnt);
        lemma_layer_arena_shape(arena, mac, squish, crnt);
        lemma_same_shape_sym(a2, arena);
        lemma_drains_shape(arena, a2, nx, (n1 - 1) as nat);
        lemma_drains_shape(arena, a2, nx, (n2 - 1) as nat);
        lemma_run_layers_fuel(a2, mac, squish, nx, layer_output(arena, mac, squish, crnt), (n1 - 1) as nat, (n2 - 1) as nat);
    }
}


pub proof fn lemma_walk_step_shape<T>(a: Seq<Option<TreeNode<T>>>, b: Seq<Option<TreeNode<T>>>, stack: Seq<Option<TreeIndex>>)
    requires
        same_shape(a, b),
    ensures
        walk_step_defined(a, stack) <==> walk_step_defined(b, stack),
        walk_step(a, stack) == walk_step(b, stack),
    decreases stack.len(),
{
    lemma_shape_present(a, b);
    if stack.len() > 0 {
        lemma_walk_step_shape(a, b, stack.drop_last());
    }
}

/// Whether the depth-first walk from `stack` can be followed to its end
/// within `n + 1` steps, with every weighted edge of each node it meets
/// leading to a present node.
pub open spec fn walk_ok<T>(arena: Seq<Option<TreeNode<T>>>, stack: Seq<Option<TreeIndex>>, n: nat) -> bool
    decreases n,
{
    &&& walk_step_defined(arena, stack)
    &&& match walk_step(arena, stack).0 {
        None => true,
        Some(c) => edges_present(arena, c as int) && n > 0 && walk_ok(arena, walk_step(arena, stack).1, (n - 1) as nat),
    }
}

/// `arena` after the depth-first walk from `stack`: each node met, in the
/// order of the walk, feeds its current value along its weighted edges.
pub open spec fn walk_feed<T, F: Fn(T, T, T) -> T>(
    arena: Seq<Option<TreeNode<T>>>, mac: F, stack: Seq<Option<TreeIndex>>, n: nat,
) -> Seq<Option<TreeNode<T>>>
    decreases n,
{
    match walk_step(arena, stack).0 {
        None => arena,
        Some(c) => {
            let node = arena[c as int].unwrap();
            if n == 0 {
                arena
            } else {
                walk_feed(
                    contribute(arena, mac, node.value, node.next_nodes@, node.weights@, edge_count(node)),
                    mac,
                    walk_step(arena, stack).1,
                    (n - 1) as nat,
                )
            }
        },
    }
}

pub proof fn lemma_walk_ok_shape<T>(a: Seq<Option<TreeNode<T>>>, b: Seq<Option<TreeNode<T>>>, stack: Seq<Option<TreeIndex>>, n: nat)
    requires
        same_shape(a, b),
        walk_ok(a, stack, n),
    ensures
        walk_ok(b, stack, n),
    decreases n,
{
    lemma_walk_step_shape(a, b, stack);
    lemma_shape_present(a, b);
    match walk_step(a, stack).0 {
        None => {},
        Some(c) => {
            lemma_walk_step_present(a, stack);
            lemma_walk_ok_shape(a, b, walk_step(a, stack).1, (n - 1) as nat);
        },
    }
}

/// The node that a walk step returns is present.
pub proof fn lemma_walk_step_present<T>(arena: Seq<Option<TreeNode<T>>>, stack: Seq<Option<TreeIndex>>)
    requires
        walk_step_defined(arena, stack),
    ensures
        walk_step(arena, stack).0 matches Some(c) ==> present(arena, c as int),
    decreases stack.len(),
{
    if stack.len() > 0 && !present(arena, stack.last().unwrap() as int) {
        lemma_walk_step_present(arena, stack.drop_last());
    }
}

/// After a node feeds its edges, the rest of the walk can still be followed.
pub proof fn lemma_feed_keeps_walk<T, F: Fn(T, T, T) -> T>(
    arena: Seq<Option<TreeNode<T>>>, mac: F, stack: Seq<Option<TreeIndex>>, n: nat,
)
    requires
        walk_ok(arena, stack, n),
        walk_step(arena, stack).0 is Some,
    ensures
        ({
            let c = walk_step(arena, stack).0.unwrap() as int;
            let node = arena[c].unwrap();
            let a2 = contribute(arena, mac, node.value, node.next_nodes@, node.weights@, edge_count(node));
            &&& same_shape(a2, arena)
            &&& walk_ok(a2, walk_step(arena, stack).1, (n - 1) as nat)
        }),
{
    let c = walk_step(arena, stack).0.unwrap() as int;
    lemma_walk_step_present(arena, stack);
    let node = arena[c].unwrap();
    assert(edges_present(arena, c));
    lemma_contribute_shape(arena, mac, node.value, node.next_nodes@, node.weights@, edge_count(node));
    let a2 = contribute(arena, mac, node.value, node.next_nodes@, node.weights@, edge_count(node));
    lemma_same_shape_sym(a2, arena);
    lemma_walk_ok_shape(arena, a2, walk_step(arena, stack).1, (n - 1) as nat);
}

/// Feeding along the walk does not depend on how much more room `n` leaves than needed.
pub proof fn lemma_walk_feed_fuel<T, F: Fn(T, T, T) -> T>(
    arena: Seq<Option<TreeNode<T>>>, mac: F, stack: Seq<Option<TreeIndex>>, n1: nat, n2: nat,
)
    requires
        walk_ok(arena, stack, n1),
        walk_ok(arena, stack, n2),
    ensures
        walk_feed(arena, mac, stack, n1) == walk_feed(arena, mac, stack, n2),
        same_shape(walk_feed(arena, mac, stack, n1), arena),
    decreases n1,
{
    match walk_step(arena, stack).0 {
        None => {
            lemma_same_shape_refl(arena);
        },
        Some(c) => {
            lemma_feed_keeps_walk(arena, mac, stack, n1);
            let node = arena[c as int].unwrap();
            let a2 = contribute(arena, mac, node.value, node.next_nodes@, node.weights@, edge_count(node));
            lemma_same_shape_sym(a2, arena);
            lemma_walk_ok_shape(arena, a2, walk_step(arena, stack).1, (n2 - 1) as nat);
            lemma_walk_feed_fuel(a2, mac, walk_step(arena, stack).1, (n1 - 1) as nat, (n2 - 1) as nat);
            lemma_same_shape_trans(walk_feed(arena, mac, stack, n1), a2, arena);
        },
    }
}


/// The node at position `c` feeds its value along its weighted edges: the
/// value `acc` of each target, in edge order, becomes `mac(acc, value, weight)`.
pub(crate) fn feed_edges<T: Copy, F: Fn(T, T, T) -> T>(tree: &mut Tree<T>, c: TreeIndex, mac: &F)
    requires
        is_function3(*mac),
        present(old(tree)@.arena, c as int),
        edges_present(old(tree)@.arena, c as int),
    ensures
        ({
            let nd = old(tree)@.arena[c as int].unwrap();
            final(tree)@.arena == contribute(old(tree)@.arena, *mac, nd.value, nd.next_nodes@, nd.weights@, edge_count(nd))
        }),
        final(tree)@.roots == old(tree)@.roots,
{
    let ghost arena_b = tree@.arena;
    let ghost roots0 = tree@.roots;
    let ghost nd = arena_b[c as int].unwrap();
    let node = tree.node_at(c).unwrap();
    let x = node.value;
    let targets = copy_vec(&node.next_nodes);
    let weights = copy_vec(&node.weights);
    let n = if targets.len() <= weights.len() { targets.len() } else { weights.len() };
    let mut j: usize = 0;
    while j < n
        invariant
            is_function3(*mac),
            j <= n,
            n == edge_count(nd),
            n <= targets@.len(),
            n <= weights@.len(),
            x == nd.value,
            targets@ == nd.next_nodes@,
            weights@ == nd.weights@,
            edges_present(arena_b, c as int),
            arena_b[c as int] == Some(nd),
            tree@.arena == contribute(arena_b, *mac, x, targets@, weights@, j as int),
            tree@.roots == roots0,
        decreases n - j,
    {
        proof {
            assert(nd.next_nodes@.take(n as int)[j as int] == targets@[j as int]);
            assert(targets@[j as int] is Some && present(arena_b, targets@[j as int].unwrap() as int));
            assert(all_present(arena_b, targets@.take(j as int))) by {
                assert forall|q: int| 0 <= q < j implies #[trigger] targets@.take(j as int)[q] is Some
                    && present(arena_b, targets@.take(j as int)[q].unwrap() as int) by {
                    assert(nd.next_nodes@.take(n as int)[q] == targets@[q]);
                }
            }
            lemma_contribute_shape(arena_b, *mac, x, targets@, weights@, j as int);
            lemma_shape_present(tree@.arena, arena_b);
        }
        let t = targets[j].unwrap();
        let acc = tree.node_at(t).unwrap().value;
        let v = mac(acc, x, weights[j]);
        proof {
            lemma_apply3(*mac, acc, x, weights@[j as int], v);
        }
        tree.set_value(t, v);
        j = j + 1;
    }
}

/// A walk over a `Tree`: `crnt` holds the pending indices, and `next_nodes`
/// the layer that the last `next_layer` moved to.
pub struct PreorderIter {
    next_nodes: Vec<Option<TreeIndex>>,
    crnt: Vec<Option<TreeIndex>>,
}

pub ghost struct PreorderIterView {
    pub next_nodes: Seq<Option<TreeIndex>>,
    pub crnt: Seq<Option<TreeIndex>>,
}

impl View for PreorderIter {
    type V = PreorderIterView;

    closed spec fn view(&self) -> PreorderIterView {
        PreorderIterView { next_nodes: self.next_nodes@, crnt: self.crnt@ }
    }
}

impl PreorderIter {
    /// A walk that starts from `roots`.
    pub fn new(roots: Vec<Option<TreeIndex>>) -> (it: Self)
        ensures
            it@.crnt == roots@,
            it@.next_nodes == Seq::<Option<TreeIndex>>::empty(),
    {
        PreorderIter { crnt: roots, next_nodes: Vec::new() }
    }

    /// The next node of the depth-first walk, as `walk_step` says.
    pub fn next<T>(&mut self, tree: &Tree<T>) -> (res: Option<TreeIndex>)
        requires
            walk_step_defined(tree@.arena, old(self)@.crnt),
        ensures
            (res, final(self)@.crnt) == walk_step(tree@.arena, old(self)@.crnt),
            final(self)@.next_nodes == old(self)@.next_nodes,
    {
        let ghost arena = tree@.arena;
        loop
            invariant
                arena == tree@.arena,
                walk_step_defined(arena, self@.crnt),
                walk_step(arena, self@.crnt) == walk_step(arena, old(self)@.crnt),
                self@.next_nodes == old(self)@.next_nodes,
            decreases self@.crnt.len(),
        {
            match self.crnt.pop() {
                None => {
                    return None;
                },
                Some(node_index) => {
                    let idx = node_index.unwrap();
                    match tree.node_at(idx) {
                        Some(node) => {
                            let ghost base = self@.crnt;
                            let mut j: usize = 0;
                            while j < node.next_nodes.len()
                                invariant
                                    j <= node.next_nodes@.len(),
                                    self@.crnt == base + node.next_nodes@.take(j as int),
                                    self@.next_nodes == old(self)@.next_nodes,
                                decreases node.next_nodes@.len() - j,
                            {
                                self.crnt.push(node.next_nodes[j]);
                                proof {
                                    assert(node.next_nodes@.take(j as int).push(node.next_nodes@[j as int])
                                        =~= node.next_nodes@.take(j + 1));
                                }
                                j = j + 1;
                            }
                            proof {
                                assert(node.next_nodes@.take(j as int) =~= node.next_nodes@);
                            }
                            return node_index;
                        },
                        None => {},
                    }
                },
            }
        }
    }

    /// Moves the walk one layer on. Every node of the current layer, from the
    /// last to the first, feeds its value along its weighted edges: the value
    /// `acc` of each target becomes `mac(acc, value, weight)`. Then each node
    /// of the following layer (the nodes that the first node of the current
    /// layer feeds) has its value `v` replaced by `squish(v)`, and that layer
    /// becomes the current one. The result is the squished values, in order,
    /// or `None` when the following layer is empty.
    pub fn next_layer<T: Copy, F: Fn(T, T, T) -> T, G: Fn(T) -> T>(
        &mut self,
        tree: &mut Tree<T>,
        mac: &F,
        squish: &G,
    ) -> (res: Option<Vec<T>>)
        requires
            is_function3(*mac),
            is_function1(*squish),
            layer_defined(old(tree)@.arena, old(self)@.crnt),
        ensures
            final(tree)@.arena == layer_arena(old(tree)@.arena, *mac, *squish, old(self)@.crnt),
            final(tree)@.roots == old(tree)@.roots,
            final(self)@.crnt == next_layer_of(old(tree)@.arena, old(self)@.crnt),
            final(self)@.next_nodes == next_layer_of(old(tree)@.arena, old(self)@.crnt),
            match res {
                Some(acts) => next_layer_of(old(tree)@.arena, old(self)@.crnt).len() > 0
                    && acts@ == layer_output(old(tree)@.arena, *mac, *squish, old(self)@.crnt),
                None => next_layer_of(old(tree)@.arena, old(self)@.crnt).len() == 0,
            },
            res matches Some(acts) ==> {
                let nx = next_layer_of(old(tree)@.arena, old(self)@.crnt);
                &&& acts@.len() == nx.len()
                &&& forall|k: int| 0 <= k < nx.len() && (forall|j: int| k < j < nx.len() ==> nx[j] != nx[k])
                    ==> #[trigger] acts@[k] == value_at(final(tree)@.arena, nx[k].unwrap() as int)
            },
    {
        let ghost arena0 = tree@.arena;
        let ghost crnt0 = self@.crnt;
        let ghost roots0 = tree@.roots;
        let mut acts: Vec<T> = Vec::new();
        let first = self.crnt[0].unwrap();
        proof {
            assert(crnt0[0] is Some && present(arena0, crnt0[0].unwrap() as int));
        }
        self.next_nodes = copy_vec(&tree.node_at(first).unwrap().next_nodes);
        let ghost nx = next_layer_of(arena0, crnt0);
        proof {
            lemma_same_shape_refl(arena0);
        }
        loop
            invariant
                is_function3(*mac),
                layer_defined(arena0, crnt0),
                same_shape(tree@.arena, arena0),
                tree@.roots == roots0,
                self@.crnt.len() <= crnt0.len(),
                self@.crnt == crnt0.take(self@.crnt.len() as int),
                propagate(tree@.arena, *mac, self@.crnt) == propagate(arena0, *mac, crnt0),
                self@.next_nodes == nx,
            ensures
                self@.crnt.len() == 0,
                same_shape(tree@.arena, arena0),
                tree@.roots == roots0,
                propagate(tree@.arena, *mac, self@.crnt) == propagate(arena0, *mac, crnt0),
                self@.next_nodes == nx,
            decreases self@.crnt.len(),
        {
            let ghost before = self@.crnt;
            let ghost arena_b = tree@.arena;
            match self.crnt.pop() {
                None => {
                    break;
                },
                Some(ci) => {
                    let ghost k = before.len() - 1;
                    proof {
                        assert(crnt0[k] == ci);
                        assert(ci is Some && present(arena0, ci.unwrap() as int));
                        lemma_shape_present(arena_b, arena0);
                        assert(edges_present(arena0, crnt0[k].unwrap() as int));
                    }
                    let c = ci.unwrap();
                    feed_edges(tree, c, mac);
                    proof {
                        let nd = arena_b[c as int].unwrap();
                        lemma_contribute_shape(arena_b, *mac, nd.value, nd.next_nodes@, nd.weights@, edge_count(nd));
                        lemma_same_shape_trans(tree@.arena, arena_b, arena0);
                        assert(before.drop_last() =~= self@.crnt);
                        assert(self@.crnt =~= crnt0.take(self@.crnt.len() as int));
                    }
                },
            }
        }
        let ghost a1 = tree@.arena;
        proof {
            assert(self@.crnt.len() == 0);
            assert(crnt0.take(0) =~= self@.crnt);
            assert(a1 == propagate(arena0, *mac, crnt0));
            lemma_shape_present(a1, arena0);
            lemma_same_shape_refl(a1);
        }
        let mut j: usize = 0;
        while j < self.next_nodes.len()
            invariant
                is_function1(*squish),
                j <= nx.len(),
                self@.next_nodes == nx,
                all_present(arena0, nx),
                same_shape(a1, arena0),
                tree@.arena == squish_all(a1, *squish, nx, j as int),
                acts@ == activations(a1, *squish, nx, j as int),
                tree@.roots == roots0,
            decreases nx.len() - j,
        {
            proof {
                lemma_squish_shape(a1, *squish, nx, j as int);
                lemma_same_shape_trans(tree@.arena, a1, arena0);
                lemma_shape_present(tree@.arena, arena0);
                assert(nx[j as int] is Some && present(arena0, nx[j as int].unwrap() as int));
            }
            let t = self.next_nodes[j].unwrap();
            let cur = tree.node_at(t).unwrap().value;
            let v = squish(cur);
            proof {
                lemma_apply1(*squish, cur, v);
            }
            tree.set_value(t, v);
            acts.push(v);
            proof {
                lemma_with_value_shape(squish_all(a1, *squish, nx, j as int), t as int, v);
            }
            j = j + 1;
        }
        proof {
            lemma_activations_len(a1, *squish, nx, nx.len() as int);
            lemma_shape_present(a1, arena0);
            assert forall|k: int| 0 <= k < nx.len() && (forall|j: int| k < j < nx.len() ==> nx[j] != nx[k])
                implies #[trigger] acts@[k] == value_at(tree@.arena, nx[k].unwrap() as int) by {
                law_activation_is_final_value(a1, *squish, nx, nx.len() as int, k);
            }
        }
        self.crnt = copy_vec(&self.next_nodes);
        if self.crnt.len() == 0 {
            None
        } else {
            Some(acts)
        }
    }

    /// Whether `next` can run now: no `None` lies on the stack between its
    /// top and the first present node.
    pub fn step_ready<T>(&self, tree: &Tree<T>) -> (ok: bool)
        ensures
            ok == walk_step_defined(tree@.arena, self@.crnt),
    {
        let mut j: usize = self.crnt.len();
        proof {
            assert(self@.crnt.take(j as int) =~= self@.crnt);
        }
        while j > 0
            invariant
                j <= self@.crnt.len(),
                walk_step_defined(tree@.arena, self@.crnt) == walk_step_defined(tree@.arena, self@.crnt.take(j as int)),
            decreases j,
        {
            let ghost s = self@.crnt.take(j as int);
            proof {
                assert(s.drop_last() =~= self@.crnt.take(j - 1));
                assert(s.last() == self@.crnt[j - 1]);
            }
            match self.crnt[j - 1] {
                None => {
                    return false;
                },
                Some(i) => {
                    if tree.node_at(i).is_some() {
                        return true;
                    }
                },
            }
            j = j - 1;
        }
        true
    }
}

/// Whether every entry of `idxs[0..upto]` is the index of a present node.
pub fn all_present_upto<T>(tree: &Tree<T>, idxs: &Vec<Option<TreeIndex>>, upto: usize) -> (ok: bool)
    requires
        upto <= idxs@.len(),
    ensures
        ok == all_present(tree@.arena, idxs@.take(upto as int)),
{
    let mut j: usize = 0;
    while j < upto
        invariant
            j <= upto <= idxs@.len(),
            all_present(tree@.arena, idxs@.take(j as int)),
        decreases upto - j,
    {
        let ok = match idxs[j] {
            None => false,
            Some(i) => tree.node_at(i).is_some(),
        };
        if !ok {
            proof {
                assert(idxs@.take(upto as int)[j as int] == idxs@[j as int]);
            }
            return false;
        }
        proof {
            assert forall|q: int| 0 <= q < j + 1 implies #[trigger] idxs@.take(j + 1)[q] is Some
                && present(tree@.arena, idxs@.take(j + 1)[q].unwrap() as int) by {
                if q < j {
                    assert(idxs@.take(j + 1)[q] == idxs@.take(j as int)[q]);
                }
            }
        }
        j = j + 1;
    }
    proof {
        assert(idxs@.take(j as int) =~= idxs@.take(upto as int));
    }
    true
}

/// Whether the node at position `c` is present and all its weighted edges
/// lead to present nodes.
pub fn edges_ready<T>(tree: &Tree<T>, c: TreeIndex) -> (ok: bool)
    ensures
        ok == (present(tree@.arena, c as int) && edges_present(tree@.arena, c as int)),
{
    match tree.node_at(c) {
        None => false,
        Some(node) => {
            let n = if node.next_nodes.len() <= node.weights.len() { node.next_nodes.len() } else { node.weights.len() };
            all_present_upto(tree, &node.next_nodes, n)
        },
    }
}

/// Whether `next_layer` can run on layer `crnt` of `tree`.
pub fn layer_ready<T>(tree: &Tree<T>, crnt: &Vec<Option<TreeIndex>>) -> (ok: bool)
    ensures
        ok == layer_defined(tree@.arena, crnt@),
{
    if crnt.len() == 0 {
        return false;
    }
    if !all_present_upto(tree, crnt, crnt.len()) {
        proof {
            assert(crnt@.take(crnt@.len() as int) =~= crnt@);
        }
        return false;
    }
    proof {
        assert(crnt@.take(crnt@.len() as int) =~= crnt@);
    }
    let mut i: usize = 0;
    while i < crnt.len()
        invariant
            i <= crnt@.len(),
            all_present(tree@.arena, crnt@),
            forall|q: int| 0 <= q < i ==> edges_present(tree@.arena, #[trigger] crnt@[q].unwrap() as int),
        decreases crnt@.len() - i,
    {
        proof {
            assert(crnt@[i as int] is Some);
        }
        if !edges_ready(tree, crnt[i].unwrap()) {
            return false;
        }
        i = i + 1;
    }
    proof {
        assert(crnt@[0] is Some);
    }
    let first = tree.node_at(crnt[0].unwrap()).unwrap();
    let ok = all_present_upto(tree, &first.next_nodes, first.next_nodes.len());
    proof {
        assert(first.next_nodes@.take(first.next_nodes@.len() as int) =~= first.next_nodes@);
    }
    ok
}

} // verus!
