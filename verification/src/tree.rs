use vstd::prelude::*;
use crate::shape::{
    with_value, same_shape, lemma_same_shape_refl, lemma_same_shape_trans, lemma_same_shape_sym,
    lemma_with_value_shape, weights_of, same_but_weights, present, lookup,
};
use crate::node::{TreeIndex, TreeNode};
use crate::iter::{
    PreorderIter, is_function1, is_function3, drains, run_layers, lemma_drains_shape,
    lemma_layer_arena_shape, lemma_run_layers_fuel, next_layer_of, all_present, walk_ok,
    walk_feed, walk_step, lemma_walk_ok_shape, lemma_walk_feed_fuel, lemma_walk_step_present,
    feed_edges, edges_present, lemma_feed_keeps_walk, lemma_shape_present, layer_ready,
    edges_ready,
};

verus! {
/// The shape of a layered network: how many input nodes, output nodes,
/// hidden layers, and nodes in each hidden layer.
pub struct TreeBuilder {
    pub inputs: usize,
    pub outputs: usize,
    pub hidden_layers: usize,
    pub inner_depth: usize,
}

impl TreeBuilder {
    pub fn new(inputs: usize, outputs: usize, hidden_layers: usize, inner_depth: usize) -> (b: Self)
        ensures
            b.inputs == inputs,
            b.outputs == outputs,
            b.hidden_layers == hidden_layers,
            b.inner_depth == inner_depth,
    {
        TreeBuilder { inputs, outputs, hidden_layers, inner_depth }
    }
}

/// An arena of (possibly absent) nodes and the list of root (input) indices.
#[derive(Clone, Debug)]
pub struct Tree<T> {
    arena: Vec<Option<TreeNode<T>>>,
    roots: Vec<Option<TreeIndex>>,
}

/// What a `Tree` holds, as mathematical sequences.
pub ghost struct TreeView<T> {
    pub arena: Seq<Option<TreeNode<T>>>,
    pub roots: Seq<Option<TreeIndex>>,
}

impl<T> View for Tree<T> {
    type V = TreeView<T>;

    closed spec fn view(&self) -> TreeView<T> {
        TreeView { arena: self.arena@, roots: self.roots@ }
    }
}

/// Whether `arena` has at least one slot and a node in every slot.
pub open spec fn full_arena<T>(arena: Seq<Option<TreeNode<T>>>) -> bool {
    &&& arena.len() > 0
    &&& forall|i: int| 0 <= i < arena.len() ==> #[trigger] arena[i] is Some
}

/// `arena` after the roots `roots[0..n]`, one after the other, have been
/// given the values `inputs[0..n]`.
pub open spec fn set_inputs<T>(arena: Seq<Option<TreeNode<T>>>, roots: Seq<Option<TreeIndex>>, inputs: Seq<T>, n: int)
    -> Seq<Option<TreeNode<T>>>
    decreases n,
{
    if n <= 0 {
        arena
    } else {
        with_value(set_inputs(arena, roots, inputs, n - 1), roots[n - 1].unwrap() as int, inputs[n - 1])
    }
}

/// `arena` after, for each root `roots[i]` with `i < n` in turn, the root is
/// given the value `inputs[i]` and then every node met by the depth-first walk
/// from all roots feeds its value along its weighted edges.
pub open spec fn df_run<T, F: Fn(T, T, T) -> T>(
    arena: Seq<Option<TreeNode<T>>>, mac: F, roots: Seq<Option<TreeIndex>>, inputs: Seq<T>, i: int, n: nat,
) -> Seq<Option<TreeNode<T>>>
    decreases i,
{
    if i <= 0 {
        arena
    } else {
        let a = df_run(arena, mac, roots, inputs, i - 1, n);
        walk_feed(with_value(a, roots[i - 1].unwrap() as int, inputs[i - 1]), mac, roots, n)
    }
}

pub proof fn lemma_df_run_fuel<T, F: Fn(T, T, T) -> T>(
    arena: Seq<Option<TreeNode<T>>>, mac: F, roots: Seq<Option<TreeIndex>>, inputs: Seq<T>, i: int, n1: nat, n2: nat,
)
    requires
        0 <= i <= roots.len(),
        all_present(arena, roots),
        walk_ok(arena, roots, n1),
        walk_ok(arena, roots, n2),
    ensures
        df_run(arena, mac, roots, inputs, i, n1) == df_run(arena, mac, roots, inputs, i, n2),
        same_shape(df_run(arena, mac, roots, inputs, i, n1), arena),
    decreases i,
{
    if i <= 0 {
        lemma_same_shape_refl(arena);
    } else {
        lemma_df_run_fuel(arena, mac, roots, inputs, i - 1, n1, n2);
        let a = df_run(arena, mac, roots, inputs, i - 1, n1);
        let r = roots[i - 1].unwrap() as int;
        lemma_shape_present(a, arena);
        assert(roots[i - 1] is Some && present(arena, r));
        let b = with_value(a, r, inputs[i - 1]);
        lemma_with_value_shape(a, r, inputs[i - 1]);
        lemma_same_shape_trans(b, a, arena);
        lemma_same_shape_sym(b, arena);
        lemma_walk_ok_shape(arena, b, roots, n1);
        lemma_walk_ok_shape(arena, b, roots, n2);
        lemma_walk_feed_fuel(b, mac, roots, n1, n2);
        lemma_same_shape_trans(walk_feed(b, mac, roots, n1), b, arena);
    }
}

pub proof fn lemma_set_inputs_shape<T>(arena: Seq<Option<TreeNode<T>>>, roots: Seq<Option<TreeIndex>>, inputs: Seq<T>, n: int)
    requires
        0 <= n <= roots.len(),
        all_present(arena, roots),
    ensures
        same_shape(set_inputs(arena, roots, inputs, n), arena),
    decreases n,
{
    if n <= 0 {
        lemma_same_shape_refl(arena);
    } else {
        lemma_set_inputs_shape(arena, roots, inputs, n - 1);
        let a = set_inputs(arena, roots, inputs, n - 1);
        let r = roots[n - 1].unwrap() as int;
        assert(roots[n - 1] is Some && present(arena, r));
        assert(present(a, r)) by {
            assert(a[r] is Some <==> arena[r] is Some);
        }
        lemma_with_value_shape(a, r, inputs[n - 1]);
        lemma_same_shape_trans(set_inputs(arena, roots, inputs, n), a, arena);
    }
}

/// Number of nodes in layer `l` of the network that `b` describes. Layers are
/// counted from the output side: layer 0 holds the outputs, layers 1 to
/// `hidden_layers` the hidden layers, and the last layer the inputs.
pub open spec fn layer_len(b: TreeBuilder, l: int) -> int {
    if l == 0 {
        b.outputs as int
    } else if l <= b.hidden_layers {
        b.inner_depth as int
    } else {
        b.inputs as int
    }
}

/// Arena position of the first node of layer `l`.
pub open spec fn layer_start(b: TreeBuilder, l: int) -> int {
    if l == 0 {
        0
    } else {
        b.outputs + (l - 1) * b.inner_depth
    }
}

/// Arena position of node `k` of layer `l`.
pub open spec fn layer_pos(b: TreeBuilder, l: int, k: int) -> int {
    layer_start(b, l) + k
}

/// The number of nodes of the whole network.
pub open spec fn network_size(b: TreeBuilder) -> int {
    b.outputs + b.hidden_layers * b.inner_depth + b.inputs
}

/// The indices of the nodes of layer `l`, in arena order.
pub open spec fn layer_indices(b: TreeBuilder, l: int) -> Seq<Option<TreeIndex>> {
    Seq::new(layer_len(b, l) as nat, |k: int| Some(layer_pos(b, l, k) as TreeIndex))
}

/// What a node of layer `l` feeds: nothing for an output, else all of layer `l - 1`.
pub open spec fn layer_targets(b: TreeBuilder, l: int) -> Seq<Option<TreeIndex>> {
    if l == 0 {
        Seq::empty()
    } else {
        layer_indices(b, l - 1)
    }
}

/// `n` copies of `w`.
pub open spec fn repeated<T>(w: T, n: nat) -> Seq<T> {
    Seq::new(n, |k: int| w)
}

/// Whether position `p` of `arena` holds a node with value `v` that feeds
/// `targets`, each with weight `w`.
pub open spec fn holds_node<T>(arena: Seq<Option<TreeNode<T>>>, p: int, v: T, w: T, targets: Seq<Option<TreeIndex>>) -> bool {
    &&& present(arena, p)
    &&& arena[p].unwrap().value == v
    &&& arena[p].unwrap().next_nodes@ == targets
    &&& arena[p].unwrap().weights@ == repeated(w, targets.len())
}

/// Whether `t` is the fully connected layered network that `b` describes,
/// each node with value `v` and each edge with weight `w`, and with the
/// inputs as its roots.
pub open spec fn is_layered<T>(t: TreeView<T>, b: TreeBuilder, v: T, w: T) -> bool {
    &&& t.arena.len() == network_size(b)
    &&& forall|l: int, k: int|
        0 <= l <= b.hidden_layers + 1 && 0 <= k < layer_len(b, l) ==>
            holds_node(t.arena, #[trigger] layer_pos(b, l, k), v, w, layer_targets(b, l))
    &&& t.roots == layer_indices(b, b.hidden_layers + 1)
}

pub proof fn lemma_layer_bounds(b: TreeBuilder, l: int)
    requires
        0 <= l <= b.hidden_layers + 1,
    ensures
        0 <= layer_start(b, l),
        layer_start(b, l) + layer_len(b, l) <= network_size(b),
        l <= b.hidden_layers ==> layer_start(b, l + 1) == layer_start(b, l) + layer_len(b, l),
        l == b.hidden_layers + 1 ==> layer_start(b, l) + layer_len(b, l) == network_size(b),
{
    let d = b.inner_depth as int;
    let h = b.hidden_layers as int;
    if l >= 1 {
        assert((l - 1) * d >= 0) by (nonlinear_arith) requires l >= 1, d >= 0;
        assert((l - 1) * d + d == l * d) by (nonlinear_arith);
        assert(l <= h ==> l * d <= h * d) by (nonlinear_arith) requires d >= 0;
        assert(l == h + 1 ==> (l - 1) * d == h * d) by (nonlinear_arith);
    } else {
        assert(h * d >= 0) by (nonlinear_arith) requires h >= 0, d >= 0;
    }
}

impl<T> Tree<T> {
    /// Adds a root (an input) to the tree; traversals start from the roots.
    pub fn add_root(&mut self, root: Option<TreeIndex>)
        ensures
            final(self)@.roots == old(self)@.roots.push(root),
            final(self)@.arena == old(self)@.arena,
    {
        self.roots.push(root);
    }

    /// Stores `node` at the end of the arena and returns its index.
    pub fn add_node(&mut self, node: TreeNode<T>) -> (index: TreeIndex)
        ensures
            index == old(self)@.arena.len(),
            final(self)@.arena == old(self)@.arena.push(Some(node)),
            final(self)@.roots == old(self)@.roots,
    {
        let index = self.arena.len();
        self.arena.push(Some(node));
        index
    }

    /// How many roots (inputs) the tree has.
    pub fn root_count(&self) -> (n: usize)
        ensures
            n == self@.roots.len(),
    {
        self.roots.len()
    }

    /// A walk over this tree that starts from its roots.
    pub fn iter(&self) -> (it: PreorderIter)
        ensures
            it@.crnt == self@.roots,
            it@.next_nodes == Seq::<Option<TreeIndex>>::empty(),
    {
        PreorderIter::new(copy_vec(&self.roots))
    }

    /// Replaces the value of the node at `index`, keeping its edges.
    pub(crate) fn set_value(&mut self, index: TreeIndex, value: T)
        requires
            present(old(self)@.arena, index as int),
        ensures
            final(self)@.arena == with_value(old(self)@.arena, index as int, value),
            final(self)@.roots == old(self)@.roots,
    {
        match self.node_at_mut(index) {
            Some(n) => {
                n.value = value;
            },
            None => {},
        }
    }

    /// Replaces weight `k` of the node at `index`, keeping everything else.
    pub(crate) fn set_weight(&mut self, index: TreeIndex, k: usize, w: T)
        requires
            present(old(self)@.arena, index as int),
            k < old(self)@.arena[index as int].unwrap().weights@.len(),
        ensures
            same_but_weights(final(self)@.arena, old(self)@.arena),
            weights_of(final(self)@.arena) == weights_of(old(self)@.arena).update(
                index as int,
                Some(old(self)@.arena[index as int].unwrap().weights@.update(k as int, w)),
            ),
            final(self)@.roots == old(self)@.roots,
    {
        let ghost a0 = self@.arena;
        match self.node_at_mut(index) {
            Some(n) => {
                n.weights.set(k, w);
            },
            None => {},
        }
        proof {
            let a1 = self@.arena;
            assert(weights_of(a1) =~= weights_of(a0).update(index as int, Some(a0[index as int].unwrap().weights@.update(k as int, w))));
        }
    }

    /// The node at `index`, if the arena has one there.
    pub fn node_at(&self, index: TreeIndex) -> (res: Option<&TreeNode<T>>)
        ensures
            match res {
                Some(n) => lookup(self@.arena, index as int) == Some(*n),
                None => lookup(self@.arena, index as int) is None,
            },
    {
        if index < self.arena.len() {
            self.arena[index].as_ref()
        } else {
            None
        }
    }

    fn slot_mut(&mut self, index: TreeIndex) -> (slot: &mut Option<TreeNode<T>>)
        requires
            index < old(self).arena@.len(),
        ensures
            *slot == old(self).arena@[index as int],
            final(self).arena@ == old(self).arena@.update(index as int, *final(slot)),
            final(self).roots == old(self).roots,
    {
        &mut self.arena[index]
    }

    /// The node at `index`, for changing in place, if the arena has one there.
    pub fn node_at_mut(&mut self, index: TreeIndex) -> (res: Option<&mut TreeNode<T>>)
        ensures
            final(self)@.roots == old(self)@.roots,
            match res {
                Some(n) => {
                    &&& lookup(old(self)@.arena, index as int) == Some(*n)
                    &&& final(self)@.arena == old(self)@.arena.update(index as int, Some(*final(n)))
                },
                None => {
                    &&& lookup(old(self)@.arena, index as int) is None
                    &&& final(self)@.arena == old(self)@.arena
                },
            },
    {
        if index < self.arena.len() {
            let slot = self.slot_mut(index);
            slot.as_mut()
        } else {
            None
        }
    }
}

/// A fresh vector with the same elements as `v`.
pub(crate) fn copy_vec<E: Copy>(v: &Vec<E>) -> (c: Vec<E>)
    ensures
        c@ == v@,
{
    let mut c: Vec<E> = Vec::new();
    let mut i: usize = 0;
    while i < v.len()
        invariant
            i <= v@.len(),
            c@ == v@.take(i as int),
        decreases v@.len() - i,
    {
        c.push(v[i]);
        proof {
            assert(v@.take(i as int).push(v@[i as int]) =~= v@.take(i + 1));
        }
        i = i + 1;
    }
    proof {
        assert(v@.take(i as int) =~= v@);
    }
    c
}

/// `n` copies of `w`.
fn filled<T: Copy>(w: T, n: usize) -> (c: Vec<T>)
    ensures
        c@ == repeated(w, n as nat),
{
    let mut c: Vec<T> = Vec::new();
    let mut i: usize = 0;
    while i < n
        invariant
            i <= n,
            c@ == repeated(w, i as nat),
        decreases n - i,
    {
        c.push(w);
        proof {
            assert(repeated(w, i as nat).push(w) =~= repeated(w, (i + 1) as nat));
        }
        i = i + 1;
    }
    c
}

impl<T: Copy> Tree<T> {
    /// Builds the fully connected layered network that `builder` describes.
    /// The outputs come first in the arena, then the hidden layers from the
    /// output side, then the inputs, which are also the roots. Every node
    /// starts with value `value` and every edge with weight `weight`.
    pub fn new(builder: TreeBuilder, value: T, weight: T) -> (t: Self)
        requires
            network_size(builder) <= usize::MAX,
        ensures
            is_layered(t@, builder, value, weight),
    {
        let b = builder;
        let ghost h = b.hidden_layers as int;
        let mut a = Tree { arena: Vec::new(), roots: Vec::new() };
        let mut next_nodes: Vec<Option<TreeIndex>> = Vec::new();
        let mut current_nodes: Vec<Option<TreeIndex>> = Vec::new();
        proof { lemma_layer_bounds(b, 0); }
        let mut o: usize = 0;
        while o < b.outputs
            invariant
                network_size(b) <= usize::MAX,
                layer_start(b, 0) + layer_len(b, 0) <= network_size(b),
                o <= b.outputs,
                a.arena@.len() == o,
                a.roots@.len() == 0,
                current_nodes@.len() == 0,
                next_nodes@ == layer_indices(b, 0).take(o as int),
                forall|k: int| 0 <= k < o ==> holds_node(a.arena@, #[trigger] layer_pos(b, 0, k), value, weight, layer_targets(b, 0)),
            decreases b.outputs - o,
        {
            let idx = a.add_node(TreeNode::new(value, Vec::new(), Vec::new()));
            next_nodes.push(Some(idx));
            proof {
                assert(a.arena@[o as int].unwrap().weights@ =~= repeated(weight, 0));
                assert(next_nodes@ =~= layer_indices(b, 0).take(o + 1));
            }
            o = o + 1;
        }
        proof {
            assert(next_nodes@ =~= layer_indices(b, 0));
        }
        let mut hl: usize = 0;
        while hl < b.hidden_layers
            invariant
                network_size(b) <= usize::MAX,
                h == b.hidden_layers,
                hl <= b.hidden_layers,
                a.arena@.len() == layer_start(b, hl + 1),
                a.roots@.len() == 0,
                current_nodes@.len() == 0,
                next_nodes@ == layer_indices(b, hl as int),
                forall|l: int, k: int| 0 <= l <= hl && 0 <= k < layer_len(b, l) ==>
                    holds_node(a.arena@, #[trigger] layer_pos(b, l, k), value, weight, layer_targets(b, l)),
            decreases b.hidden_layers - hl,
        {
            proof { lemma_layer_bounds(b, hl + 1); lemma_layer_bounds(b, hl as int); }
            let mut k: usize = 0;
            while k < b.inner_depth
                invariant
                    network_size(b) <= usize::MAX,
                    hl < b.hidden_layers,
                    layer_start(b, hl + 1) + layer_len(b, hl + 1) <= network_size(b),
                    layer_len(b, hl + 1) == b.inner_depth,
                    k <= b.inner_depth,
                    a.arena@.len() == layer_start(b, hl + 1) + k,
                    a.roots@.len() == 0,
                    current_nodes@ == layer_indices(b, hl + 1).take(k as int),
                    next_nodes@ == layer_indices(b, hl as int),
                    forall|l: int, j: int| 0 <= l <= hl && 0 <= j < layer_len(b, l) ==>
                        holds_node(a.arena@, #[trigger] layer_pos(b, l, j), value, weight, layer_targets(b, l)),
                    forall|j: int| 0 <= j < k ==>
                        holds_node(a.arena@, #[trigger] layer_pos(b, hl + 1, j), value, weight, layer_targets(b, hl + 1)),
                decreases b.inner_depth - k,
            {
                let targets = copy_vec(&next_nodes);
                let weights = filled(weight, next_nodes.len());
                let idx = a.add_node(TreeNode::new(value, targets, weights));
                current_nodes.push(Some(idx));
                proof {
                    assert(layer_pos(b, hl + 1, k as int) == idx);
                    assert(current_nodes@ =~= layer_indices(b, hl + 1).take(k + 1));
                }
                k = k + 1;
            }
            next_nodes = copy_vec(&current_nodes);
            current_nodes = Vec::new();
            proof {
                assert(next_nodes@ =~= layer_indices(b, hl + 1));
                lemma_layer_bounds(b, hl + 1);
            }
            hl = hl + 1;
        }
        proof { lemma_layer_bounds(b, h + 1); lemma_layer_bounds(b, h); }
        let mut i: usize = 0;
        while i < b.inputs
            invariant
                network_size(b) <= usize::MAX,
                h == b.hidden_layers,
                layer_start(b, h + 1) + layer_len(b, h + 1) == network_size(b),
                layer_len(b, h + 1) == b.inputs,
                i <= b.inputs,
                a.arena@.len() == layer_start(b, h + 1) + i,
                current_nodes@ == layer_indices(b, h + 1).take(i as int),
                a.roots@ == current_nodes@,
                next_nodes@ == layer_indices(b, h),
                forall|l: int, j: int| 0 <= l <= h && 0 <= j < layer_len(b, l) ==>
                    holds_node(a.arena@, #[trigger] layer_pos(b, l, j), value, weight, layer_targets(b, l)),
                forall|j: int| 0 <= j < i ==>
                    holds_node(a.arena@, #[trigger] layer_pos(b, h + 1, j), value, weight, layer_targets(b, h + 1)),
            decreases b.inputs - i,
        {
            let targets = copy_vec(&next_nodes);
            let weights = filled(weight, next_nodes.len());
            let idx = a.add_node(TreeNode::new(value, targets, weights));
            current_nodes.push(Some(idx));
            a.add_root(Some(idx));
            proof {
                assert(layer_pos(b, h + 1, i as int) == idx);
                assert(current_nodes@ =~= layer_indices(b, h + 1).take(i + 1));
            }
            i = i + 1;
        }
        proof {
            assert(a.roots@ =~= layer_indices(b, h + 1));
        }
        a
    }

    /// Runs the network forward, layer by layer: each root `roots[i]` takes
    /// the value `inputs[i]`, then `next_layer` steps run from the roots until
    /// a layer feeds nothing. The result is the activations of the last
    /// non-empty layer reached (empty if the roots feed nothing).
    pub fn run_through_bf<F: Fn(T, T, T) -> T, G: Fn(T) -> T>(&mut self, inputs: &[T], mac: &F, squish: &G) -> (out: Vec<T>)
        requires
            is_function3(*mac),
            is_function1(*squish),
            inputs@.len() >= old(self)@.roots.len(),
            all_present(old(self)@.arena, old(self)@.roots),
            exists|n: nat| drains(old(self)@.arena, old(self)@.roots, n),
        ensures
            final(self)@.roots == old(self)@.roots,
            forall|n: nat| drains(old(self)@.arena, old(self)@.roots, n) ==> (final(self)@.arena, out@) == run_layers(
                set_inputs(old(self)@.arena, old(self)@.roots, inputs@, old(self)@.roots.len() as int),
                *mac,
                *squish,
                old(self)@.roots,
                Seq::empty(),
                n,
            ),
    {
        let ghost arena0 = self@.arena;
        let ghost roots0 = self@.roots;
        let mut iter = self.iter();
        let mut i: usize = 0;
        proof {
            lemma_same_shape_refl(arena0);
        }
        while i < self.roots.len()
            invariant
                roots0 == self@.roots,
                i <= roots0.len(),
                inputs@.len() >= roots0.len(),
                all_present(arena0, roots0),
                self@.arena == set_inputs(arena0, roots0, inputs@, i as int),
            decreases roots0.len() - i,
        {
            proof {
                lemma_set_inputs_shape(arena0, roots0, inputs@, i as int);
                assert(roots0[i as int] is Some && present(arena0, roots0[i as int].unwrap() as int));
                assert(self@.arena[roots0[i as int].unwrap() as int] is Some <==> arena0[roots0[i as int].unwrap() as int] is Some);
            }
            let r = self.roots[i].unwrap();
            self.set_value(r, inputs[i]);
            i = i + 1;
        }
        let ghost start = self@.arena;
        let ghost fuel = choose|n: nat| drains(arena0, roots0, n);
        let ghost mut k: nat = fuel;
        let mut opts: Vec<T> = Vec::new();
        proof {
            lemma_set_inputs_shape(arena0, roots0, inputs@, roots0.len() as int);
            lemma_same_shape_sym(start, arena0);
            lemma_drains_shape(arena0, start, roots0, fuel);
        }
        loop
            invariant_except_break
                drains(self@.arena, iter@.crnt, k),
                run_layers(self@.arena, *mac, *squish, iter@.crnt, opts@, k)
                    == run_layers(start, *mac, *squish, roots0, Seq::empty(), fuel),
            invariant
                is_function3(*mac),
                is_function1(*squish),
                self@.roots == roots0,
            ensures
                self@.roots == roots0,
                (self@.arena, opts@) == run_layers(start, *mac, *squish, roots0, Seq::empty(), fuel),
            decreases k,
        {
            let ghost a = self@.arena;
            let ghost c = iter@.crnt;
            match iter.next_layer(self, mac, squish) {
                Some(res) => {
                    opts = res;
                    proof {
                        lemma_layer_arena_shape(a, *mac, *squish, c);
                        lemma_drains_shape(a, self@.arena, next_layer_of(a, c), (k - 1) as nat);
                        k = (k - 1) as nat;
                    }
                },
                None => {
                    break;
                },
            }
        }
        proof {
            assert forall|n: nat| drains(arena0, roots0, n) implies (self@.arena, opts@) == run_layers(start, *mac, *squish, roots0, Seq::empty(), n) by {
                lemma_drains_shape(arena0, start, roots0, n);
                lemma_run_layers_fuel(start, *mac, *squish, roots0, Seq::<T>::empty(), fuel, n);
            }
        }
        opts
    }

    /// Runs the network forward depth first: for each root `roots[i]` in
    /// turn, the root takes the value `inputs[i]`, and then every node met by
    /// the depth-first walk from all the roots (see `PreorderIter::next`)
    /// feeds its value along its weighted edges, the value `acc` of each
    /// target becoming `mac(acc, value, weight)`. The arena must not be
    /// empty and must have a node in every slot: the run reads every slot and
    /// the first one (for its trace), and fails on an empty arena or slot.
    pub fn run_through_df<F: Fn(T, T, T) -> T>(&mut self, inputs: &[T], mac: &F)
        requires
            is_function3(*mac),
            full_arena(old(self)@.arena),
            inputs@.len() >= old(self)@.roots.len(),
            all_present(old(self)@.arena, old(self)@.roots),
            exists|n: nat| walk_ok(old(self)@.arena, old(self)@.roots, n),
        ensures
            final(self)@.roots == old(self)@.roots,
            forall|n: nat| walk_ok(old(self)@.arena, old(self)@.roots, n) ==> final(self)@.arena == df_run(
                old(self)@.arena,
                *mac,
                old(self)@.roots,
                inputs@,
                old(self)@.roots.len() as int,
                n,
            ),
    {
        let ghost arena0 = self@.arena;
        let ghost roots0 = self@.roots;
        let ghost fuel = choose|n: nat| walk_ok(arena0, roots0, n);
        let mut i: usize = 0;
        proof {
            lemma_same_shape_refl(arena0);
        }
        while i < self.roots.len()
            invariant
                is_function3(*mac),
                roots0 == self@.roots,
                i <= roots0.len(),
                inputs@.len() >= roots0.len(),
                all_present(arena0, roots0),
                walk_ok(arena0, roots0, fuel),
                same_shape(self@.arena, arena0),
                self@.arena == df_run(arena0, *mac, roots0, inputs@, i as int, fuel),
            decreases roots0.len() - i,
        {
            let mut pos_iter = self.iter();
            proof {
                lemma_shape_present(self@.arena, arena0);
                assert(roots0[i as int] is Some && present(arena0, roots0[i as int].unwrap() as int));
            }
            let r = self.roots[i].unwrap();
            let ghost a_prev = self@.arena;
            self.set_value(r, inputs[i]);
            let ghost a_start = self@.arena;
            let ghost mut k: nat = fuel;
            proof {
                lemma_with_value_shape(a_prev, r as int, inputs@[i as int]);
                lemma_same_shape_trans(a_start, a_prev, arena0);
                lemma_same_shape_sym(a_start, arena0);
                lemma_walk_ok_shape(arena0, a_start, roots0, fuel);
            }
            loop
                invariant_except_break
                    walk_ok(self@.arena, pos_iter@.crnt, k),
                    walk_feed(self@.arena, *mac, pos_iter@.crnt, k) == walk_feed(a_start, *mac, roots0, fuel),
                invariant
                    is_function3(*mac),
                    self@.roots == roots0,
                ensures
                    self@.roots == roots0,
                    self@.arena == walk_feed(a_start, *mac, roots0, fuel),
                decreases k,
            {
                let ghost a = self@.arena;
                let ghost st = pos_iter@.crnt;
                match pos_iter.next(self) {
                    None => {
                        break;
                    },
                    Some(node) => {
                        proof {
                            lemma_walk_step_present(a, st);
                            assert(edges_present(a, node as int));
                        }
                        feed_edges(self, node, mac);
                        proof {
                            lemma_feed_keeps_walk(a, *mac, st, k);
                            k = (k - 1) as nat;
                        }
                    },
                }
            }
            proof {
                lemma_walk_feed_fuel(a_start, *mac, roots0, fuel, fuel);
                lemma_same_shape_trans(self@.arena, a_start, arena0);
            }
            i = i + 1;
        }
        proof {
            assert forall|n: nat| walk_ok(arena0, roots0, n) implies self@.arena == df_run(arena0, *mac, roots0, inputs@, roots0.len() as int, n) by {
                lemma_df_run_fuel(arena0, *mac, roots0, inputs@, roots0.len() as int, fuel, n);
            }
        }
    }

    /// Whether `run_through_bf` can run: each layer step from the roots can
    /// run, and an empty layer is reached within `fuel + 1` steps.
    pub fn layers_drain_within(&self, fuel: usize) -> (ok: bool)
        ensures
            ok == drains(self@.arena, self@.roots, fuel as nat),
    {
        let mut crnt = copy_vec(&self.roots);
        let mut k: usize = fuel;
        loop
            invariant
                k <= fuel,
                drains(self@.arena, self@.roots, fuel as nat) == drains(self@.arena, crnt@, k as nat),
            decreases k,
        {
            if !layer_ready(self, &crnt) {
                return false;
            }
            let first = self.node_at(crnt[0].unwrap()).unwrap();
            let nx = copy_vec(&first.next_nodes);
            if nx.len() == 0 {
                return true;
            }
            if k == 0 {
                return false;
            }
            crnt = nx;
            k = k - 1;
        }
    }

    /// Whether `run_through_df` can run: the depth-first walk from the roots
    /// can be followed to its end within `fuel + 1` steps, every weighted
    /// edge of each node it meets leading to a present node.
    pub fn walk_completes_within(&self, fuel: usize) -> (ok: bool)
        ensures
            ok == walk_ok(self@.arena, self@.roots, fuel as nat),
    {
        let mut it = self.iter();
        let mut k: usize = fuel;
        loop
            invariant
                k <= fuel,
                walk_ok(self@.arena, self@.roots, fuel as nat) == walk_ok(self@.arena, it@.crnt, k as nat),
            decreases k,
        {
            if !it.step_ready(self) {
                return false;
            }
            let ghost st = it@.crnt;
            match it.next(self) {
                None => {
                    return true;
                },
                Some(c) => {
                    proof {
                        lemma_walk_step_present(self@.arena, st);
                    }
                    if !edges_ready(self, c) {
                        return false;
                    }
                    if k == 0 {
                        return false;
                    }
                    proof {
                        assert(walk_step(self@.arena, st).1 == it@.crnt);
                    }
                    k = k - 1;
                },
            }
        }
    }

    /// Whether the arena has at least one slot and a node in every slot, as
    /// `run_through_df` needs.
    pub fn arena_full(&self) -> (ok: bool)
        ensures
            ok == full_arena(self@.arena),
    {
        if self.arena.len() == 0 {
            return false;
        }
        let mut i: usize = 0;
        while i < self.arena.len()
            invariant
                i <= self@.arena.len(),
                forall|j: int| 0 <= j < i ==> #[trigger] self@.arena[j] is Some,
            decreases self@.arena.len() - i,
        {
            if self.arena[i].is_none() {
                return false;
            }
            i = i + 1;
        }
        true
    }
}

} // verus!
