use vstd::prelude::*;
use crate::shape::{same_shape, lemma_same_shape_trans, lemma_same_shape_sym, present, lookup};
use crate::node::{TreeIndex, TreeNode};
use crate::tree::{
    TreeBuilder, TreeView, is_layered, layer_indices, layer_len, layer_pos, layer_targets,
    network_size, set_inputs, holds_node, lemma_set_inputs_shape, df_run, lemma_df_run_fuel,
    layer_start, lemma_layer_bounds,
};
use crate::evolve::walk_ends;
use crate::iter::{
    drains, layer_defined, next_layer_of, all_present, edges_present, edge_count, run_layers,
    layer_arena, layer_output, lemma_layer_shape, lemma_drains_shape, lemma_layer_arena_shape,
    lemma_activations_len, walk_ok, walk_step, lemma_walk_step_present, walk_step_defined,
    propagate, value_at, lemma_layer_frame,
};

verus! {

/// A node stored by `add_node` is read back by `node_at` at the index that
/// `add_node` returned, and every other index reads as before. The
/// `requires` are the `ensures` of `add_node`; `lookup` is what `node_at`
/// returns.
pub proof fn law_added_node_reads_back<T>(before: TreeView<T>, after: TreeView<T>, node: TreeNode<T>, index: int)
    requires
        index == before.arena.len(),
        after.arena == before.arena.push(Some(node)),
    ensures
        lookup(after.arena, index) == Some(node),
        forall|j: int| j != index ==> #[trigger] lookup(after.arena, j) == lookup(before.arena, j),
{
}

/// A node changed through `node_at_mut` is read back changed by `node_at`,
/// and every other index reads as before. The `requires` are the `ensures`
/// of `node_at_mut` when it finds a node; `lookup` is what `node_at` returns.
pub proof fn law_changed_node_reads_back<T>(
    before: TreeView<T>, after: TreeView<T>, index: int, found: TreeNode<T>, changed: TreeNode<T>,
)
    requires
        lookup(before.arena, index) == Some(found),
        after.arena == before.arena.update(index, Some(changed)),
    ensures
        lookup(after.arena, index) == Some(changed),
        forall|j: int| j != index ==> #[trigger] lookup(after.arena, j) == lookup(before.arena, j),
{
}

proof fn lemma_layer_defined_built<T>(t: TreeView<T>, b: TreeBuilder, v: T, w: T, l: int)
    requires
        is_layered(t, b, v, w),
        network_size(b) <= usize::MAX,
        0 <= l <= b.hidden_layers + 1,
        layer_len(b, l) > 0,
    ensures
        layer_defined(t.arena, layer_indices(b, l)),
        next_layer_of(t.arena, layer_indices(b, l)) == layer_targets(b, l),
{
    let h = b.hidden_layers as int;
    let crnt = layer_indices(b, l);
    assert forall|k: int| 0 <= k < layer_len(b, l) implies layer_pos(b, l, k) as TreeIndex as int == layer_pos(b, l, k) by {
        lemma_pos_bounds(b, l, k);
    }
    assert forall|k: int| 0 <= k < layer_len(b, l) implies #[trigger] holds_node(t.arena, layer_pos(b, l, k), v, w, layer_targets(b, l)) by {
    }
    assert(all_present(t.arena, crnt)) by {
        assert forall|j: int| 0 <= j < crnt.len() implies #[trigger] crnt[j] is Some && present(t.arena, crnt[j].unwrap() as int) by {
            assert(holds_node(t.arena, layer_pos(b, l, j), v, w, layer_targets(b, l)));
        }
    }
    let tg = layer_targets(b, l);
    assert(all_present(t.arena, tg)) by {
        if l > 0 {
            assert forall|j: int| 0 <= j < tg.len() implies #[trigger] tg[j] is Some && present(t.arena, tg[j].unwrap() as int) by {
                lemma_pos_bounds(b, l - 1, j);
                assert(holds_node(t.arena, layer_pos(b, l - 1, j), v, w, layer_targets(b, l - 1)));
            }
        }
    }
    assert forall|i: int| 0 <= i < crnt.len() implies edges_present(t.arena, #[trigger] crnt[i].unwrap() as int) by {
        let p = layer_pos(b, l, i);
        assert(holds_node(t.arena, p, v, w, tg));
        let nd = t.arena[p].unwrap();
        assert(edge_count(nd) == tg.len());
        assert(nd.next_nodes@.take(edge_count(nd)) =~= tg);
    }
    assert(crnt[0] == Some(layer_pos(b, l, 0) as TreeIndex));
    assert(holds_node(t.arena, layer_pos(b, l, 0), v, w, tg));
}

proof fn lemma_pos_bounds(b: TreeBuilder, l: int, k: int)
    requires
        0 <= l <= b.hidden_layers + 1,
        0 <= k < layer_len(b, l),
        network_size(b) <= usize::MAX,
    ensures
        0 <= layer_pos(b, l, k) < network_size(b),
{
    let d = b.inner_depth as int;
    let h = b.hidden_layers as int;
    if l >= 1 {
        assert((l - 1) * d >= 0) by (nonlinear_arith) requires l >= 1, d >= 0;
        assert(l <= h ==> (l - 1) * d + d <= h * d) by (nonlinear_arith) requires d >= 0, l >= 1;
        assert(l == h + 1 ==> (l - 1) * d == h * d) by (nonlinear_arith);
    } else {
        assert(h * d >= 0) by (nonlinear_arith) requires h >= 0, d >= 0;
    }
}


proof fn lemma_built_layer_drains<T>(t: TreeView<T>, b: TreeBuilder, v: T, w: T, l: int)
    requires
        is_layered(t, b, v, w),
        network_size(b) <= usize::MAX,
        0 <= l <= b.hidden_layers + 1,
        layer_len(b, l) > 0,
    ensures
        drains(t.arena, layer_indices(b, l), l as nat),
    decreases l,
{
    lemma_layer_defined_built(t, b, v, w, l);
    if l > 0 && layer_len(b, l - 1) > 0 {
        lemma_built_layer_drains(t, b, v, w, l - 1);
    }
}

/// A network built by `Tree::new` with at least one input can be run by
/// `run_through_bf`: every layer step can run, and an empty layer is reached
/// within as many steps as there are layers.
pub proof fn law_built_network_runs<T>(t: TreeView<T>, b: TreeBuilder, v: T, w: T)
    requires
        is_layered(t, b, v, w),
        network_size(b) <= usize::MAX,
        b.inputs > 0,
    ensures
        all_present(t.arena, t.roots),
        drains(t.arena, t.roots, (b.hidden_layers + 1) as nat),
{
    lemma_built_layer_drains(t, b, v, w, b.hidden_layers + 1);
    lemma_layer_defined_built(t, b, v, w, b.hidden_layers + 1);
}


/// Whether every layer of the network that `b` describes has a node.
pub open spec fn no_empty_layer(b: TreeBuilder) -> bool {
    &&& b.inputs > 0
    &&& b.outputs > 0
    &&& (b.hidden_layers == 0 || b.inner_depth > 0)
}

proof fn lemma_run_reaches_outputs<T, F: Fn(T, T, T) -> T, G: Fn(T) -> T>(
    t: TreeView<T>, b: TreeBuilder, v: T, w: T,
    a: Seq<Option<TreeNode<T>>>, mac: F, squish: G, l: int, opts: Seq<T>, n: nat,
)
    requires
        is_layered(t, b, v, w),
        network_size(b) <= usize::MAX,
        no_empty_layer(b),
        1 <= l <= b.hidden_layers + 1,
        same_shape(a, t.arena),
        drains(a, layer_indices(b, l), n),
    ensures
        run_layers(a, mac, squish, layer_indices(b, l), opts, n).1.len() == b.outputs,
        forall|k: int| 0 <= k < b.outputs ==> #[trigger] run_layers(a, mac, squish, layer_indices(b, l), opts, n).1[k]
            == value_at(run_layers(a, mac, squish, layer_indices(b, l), opts, n).0, k),
    decreases l,
{
    let crnt = layer_indices(b, l);
    lemma_layer_defined_built(t, b, v, w, l);
    lemma_layer_shape(a, t.arena, crnt);
    let nx = next_layer_of(a, crnt);
    assert(nx == layer_indices(b, l - 1));
    assert(nx.len() == layer_len(b, l - 1));
    assert(nx.len() > 0);
    let a2 = layer_arena(a, mac, squish, crnt);
    let o2 = layer_output(a, mac, squish, crnt);
    lemma_activations_len(propagate(a, mac, crnt), squish, nx, nx.len() as int);
    assert(o2.len() == nx.len());
    lemma_layer_arena_shape(a, mac, squish, crnt);
    lemma_same_shape_sym(a2, a);
    lemma_drains_shape(a, a2, nx, (n - 1) as nat);
    lemma_same_shape_trans(a2, a, t.arena);
    assert(n > 0);
    assert(run_layers(a, mac, squish, crnt, opts, n) == run_layers(a2, mac, squish, nx, o2, (n - 1) as nat));
    if l == 1 {
        lemma_layer_defined_built(t, b, v, w, 0);
        lemma_layer_shape(a2, t.arena, nx);
        assert(next_layer_of(a2, nx).len() == 0);
        assert(run_layers(a2, mac, squish, nx, o2, (n - 1) as nat).1 == o2);
        let a1 = propagate(a, mac, crnt);
        crate::iter::lemma_shape_present(a, t.arena);
        crate::iter::lemma_shape_present(a2, t.arena);
        lemma_layer_arena_shape(a, mac, squish, crnt);
        assert(layer_defined(a, crnt));
        assert forall|k: int| 0 <= k < b.outputs implies #[trigger] run_layers(a, mac, squish, crnt, opts, n).1[k]
            == value_at(run_layers(a, mac, squish, crnt, opts, n).0, k) by {
            lemma_pos_bounds(b, 0, k);
            assert(nx[k] == Some(k as TreeIndex));
            assert forall|j: int| k < j < nx.len() implies #[trigger] nx[j] != nx[k] by {
                lemma_pos_bounds(b, 0, j);
                assert(nx[j] == Some(j as TreeIndex));
            }
            crate::iter::lemma_propagate_shape(a, mac, crnt);
            crate::iter::lemma_shape_present(a1, a);
            crate::iter::law_activation_is_final_value(a1, squish, nx, nx.len() as int, k);
            assert forall|i: int, q: int| 0 <= i < nx.len() && 0 <= q < edge_count(a2[nx[i].unwrap() as int].unwrap())
                implies #[trigger] a2[nx[i].unwrap() as int].unwrap().next_nodes@[q].unwrap() as int != k by {
                lemma_pos_bounds(b, 0, i);
                assert(nx[i] == Some(i as TreeIndex));
                assert(holds_node(t.arena, i, v, w, layer_targets(b, 0)));
                assert(present(t.arena, i));
                assert(a2[i].unwrap().next_nodes@ == t.arena[i].unwrap().next_nodes@);
            }
            lemma_layer_frame(a2, mac, squish, nx, k);
        }
    } else {
        lemma_run_reaches_outputs(t, b, v, w, a2, mac, squish, l - 1, o2, (n - 1) as nat);
    }
}

/// Running a network built by `Tree::new` in which no layer is empty gives
/// one activation per output node, in the order of the outputs: activation
/// `k` is the value that output node `k` (at arena position `k`) is left with.
pub proof fn law_built_network_outputs<T, F: Fn(T, T, T) -> T, G: Fn(T) -> T>(
    t: TreeView<T>, b: TreeBuilder, v: T, w: T, mac: F, squish: G, inputs: Seq<T>, n: nat,
)
    requires
        is_layered(t, b, v, w),
        network_size(b) <= usize::MAX,
        no_empty_layer(b),
        drains(t.arena, t.roots, n),
    ensures
        run_layers(set_inputs(t.arena, t.roots, inputs, t.roots.len() as int), mac, squish, t.roots, Seq::empty(), n).1.len()
            == b.outputs,
        forall|k: int| 0 <= k < b.outputs ==> #[trigger] run_layers(
            set_inputs(t.arena, t.roots, inputs, t.roots.len() as int), mac, squish, t.roots, Seq::empty(), n).1[k]
            == value_at(run_layers(set_inputs(t.arena, t.roots, inputs, t.roots.len() as int), mac, squish, t.roots, Seq::empty(), n).0, k),
{
    law_built_network_runs(t, b, v, w);
    let start = set_inputs(t.arena, t.roots, inputs, t.roots.len() as int);
    lemma_set_inputs_shape(t.arena, t.roots, inputs, t.roots.len() as int);
    lemma_same_shape_sym(start, t.arena);
    lemma_drains_shape(t.arena, start, t.roots, n);
    lemma_run_reaches_outputs(t, b, v, w, start, mac, squish, b.hidden_layers + 1, Seq::empty(), n);
}


/// A layer-by-layer run (`run_through_bf`, from its roots' new values on)
/// changes node values only: every node stays where it is, with the same
/// edges and weights.
pub proof fn law_layer_run_keeps_shape<T, F: Fn(T, T, T) -> T, G: Fn(T) -> T>(
    arena: Seq<Option<TreeNode<T>>>, mac: F, squish: G, crnt: Seq<Option<TreeIndex>>, opts: Seq<T>, n: nat,
)
    requires
        drains(arena, crnt, n),
    ensures
        same_shape(run_layers(arena, mac, squish, crnt, opts, n).0, arena),
    decreases n,
{
    let a2 = layer_arena(arena, mac, squish, crnt);
    let nx = next_layer_of(arena, crnt);
    lemma_layer_arena_shape(arena, mac, squish, crnt);
    if nx.len() != 0 && n != 0 {
        lemma_same_shape_sym(a2, arena);
        lemma_drains_shape(arena, a2, nx, (n - 1) as nat);
        law_layer_run_keeps_shape(a2, mac, squish, nx, layer_output(arena, mac, squish, crnt), (n - 1) as nat);
        lemma_same_shape_trans(run_layers(a2, mac, squish, nx, layer_output(arena, mac, squish, crnt), (n - 1) as nat).0, a2, arena);
    }
}

/// A depth-first run (`run_through_df`) changes node values only: every
/// node stays where it is, with the same edges and weights.
pub proof fn law_walk_run_keeps_shape<T, F: Fn(T, T, T) -> T>(
    arena: Seq<Option<TreeNode<T>>>, mac: F, roots: Seq<Option<TreeIndex>>, inputs: Seq<T>, n: nat,
)
    requires
        all_present(arena, roots),
        walk_ok(arena, roots, n),
    ensures
        same_shape(df_run(arena, mac, roots, inputs, roots.len() as int, n), arena),
{
    lemma_df_run_fuel(arena, mac, roots, inputs, roots.len() as int, n, n);
}

/// The depth-first walk only ever yields nodes that are present.
pub proof fn law_walk_yields_present_nodes<T>(arena: Seq<Option<TreeNode<T>>>, stack: Seq<Option<TreeIndex>>)
    requires
        walk_step_defined(arena, stack),
    ensures
        walk_step(arena, stack).0 matches Some(c) ==> present(arena, c as int),
{
    lemma_walk_step_present(arena, stack);
}


/// How many steps the depth-first walk takes over the part of a layered
/// network below one node of layer `l`, that node included.
pub open spec fn walk_cost(b: TreeBuilder, l: int) -> nat
    decreases l,
{
    if l <= 0 {
        1
    } else {
        1 + (layer_len(b, l - 1) as nat) * walk_cost(b, l - 1)
    }
}

proof fn lemma_walk_ok_more_fuel<T>(arena: Seq<Option<TreeNode<T>>>, s: Seq<Option<TreeIndex>>, n: nat, m: nat)
    requires
        walk_ok(arena, s, n),
        n <= m,
    ensures
        walk_ok(arena, s, m),
    decreases n,
{
    if walk_step(arena, s).0 is Some {
        lemma_walk_ok_more_fuel(arena, walk_step(arena, s).1, (n - 1) as nat, (m - 1) as nat);
    }
}

proof fn lemma_walk_push_node<T>(
    t: TreeView<T>, b: TreeBuilder, v: T, w: T, s: Seq<Option<TreeIndex>>, m: nat, l: int, k: int,
)
    requires
        is_layered(t, b, v, w),
        network_size(b) <= usize::MAX,
        0 <= l <= b.hidden_layers + 1,
        0 <= k < layer_len(b, l),
        walk_ok(t.arena, s, m),
    ensures
        walk_ok(t.arena, s.push(Some(layer_pos(b, l, k) as TreeIndex)), m + walk_cost(b, l)),
    decreases l, 1int, 0int,
{
    let p = layer_pos(b, l, k);
    lemma_pos_bounds(b, l, k);
    lemma_layer_defined_built(t, b, v, w, l);
    let crnt = layer_indices(b, l);
    assert(crnt[k] == Some(p as TreeIndex));
    assert(edges_present(t.arena, p));
    assert(holds_node(t.arena, p, v, w, layer_targets(b, l)));
    let st = s.push(Some(p as TreeIndex));
    assert(st.drop_last() =~= s);
    assert(walk_step(t.arena, st) == (Some(p as TreeIndex), s + layer_targets(b, l)));
    if l == 0 {
        assert(s + layer_targets(b, l) =~= s);
    } else {
        let len = layer_len(b, l - 1);
        lemma_walk_push_layer(t, b, v, w, s, m, l - 1, len);
        assert(layer_indices(b, l - 1).take(len) =~= layer_targets(b, l));
        lemma_walk_ok_more_fuel(t.arena, s + layer_targets(b, l), m + (len as nat) * walk_cost(b, l - 1), (m + walk_cost(b, l) - 1) as nat);
    }
}

proof fn lemma_walk_push_layer<T>(
    t: TreeView<T>, b: TreeBuilder, v: T, w: T, s: Seq<Option<TreeIndex>>, m: nat, l: int, k: int,
)
    requires
        is_layered(t, b, v, w),
        network_size(b) <= usize::MAX,
        0 <= l <= b.hidden_layers + 1,
        0 <= k <= layer_len(b, l),
        walk_ok(t.arena, s, m),
    ensures
        walk_ok(t.arena, s + layer_indices(b, l).take(k), m + (k as nat) * walk_cost(b, l)),
    decreases l, 2int, k,
{
    let c = walk_cost(b, l);
    if k == 0 {
        assert(s + layer_indices(b, l).take(0) =~= s);
        assert((0 as nat) * c == 0) by (nonlinear_arith);
    } else {
        lemma_walk_push_layer(t, b, v, w, s, m, l, k - 1);
        let s2 = s + layer_indices(b, l).take(k - 1);
        let m2 = m + ((k - 1) as nat) * c;
        lemma_walk_push_node(t, b, v, w, s2, m2, l, k - 1);
        assert(s2.push(Some(layer_pos(b, l, k - 1) as TreeIndex)) =~= s + layer_indices(b, l).take(k));
        assert(m2 + c == m + (k as nat) * c) by (nonlinear_arith) requires m2 == m + ((k - 1) as nat) * c, k >= 1;
    }
}

/// The depth-first walk over a network built by `Tree::new` ends, every
/// node it meets feeding only present nodes, so `run_through_df` can run on
/// it: within `inputs * walk_cost` steps, one full walk below each input.
pub proof fn law_built_network_walks<T>(t: TreeView<T>, b: TreeBuilder, v: T, w: T)
    requires
        is_layered(t, b, v, w),
        network_size(b) <= usize::MAX,
    ensures
        all_present(t.arena, t.roots),
        walk_ok(t.arena, t.roots, (b.inputs as nat) * walk_cost(b, b.hidden_layers + 1)),
{
    let h1 = b.hidden_layers + 1;
    assert(walk_ok(t.arena, Seq::<Option<TreeIndex>>::empty(), 0));
    lemma_walk_push_layer(t, b, v, w, Seq::empty(), 0, h1, layer_len(b, h1));
    assert(Seq::<Option<TreeIndex>>::empty() + layer_indices(b, h1).take(layer_len(b, h1)) =~= t.roots);
    if b.inputs > 0 {
        lemma_layer_defined_built(t, b, v, w, h1);
    } else {
        assert(t.roots.len() == 0);
    }
}


proof fn lemma_walk_ok_ends<T>(arena: Seq<Option<TreeNode<T>>>, s: Seq<Option<TreeIndex>>, n: nat)
    requires
        walk_ok(arena, s, n),
    ensures
        walk_ends(arena, s, n),
    decreases n,
{
    if walk_step(arena, s).0 is Some {
        lemma_walk_ok_ends(arena, walk_step(arena, s).1, (n - 1) as nat);
    }
}

/// The weights of a network built by `Tree::new` can be perturbed along its
/// depth-first walk (`perturb_weights`), which is how it evolves.
pub proof fn law_built_network_evolves<T>(t: TreeView<T>, b: TreeBuilder, v: T, w: T)
    requires
        is_layered(t, b, v, w),
        network_size(b) <= usize::MAX,
    ensures
        walk_ends(t.arena, t.roots, (b.inputs as nat) * walk_cost(b, b.hidden_layers + 1)),
{
    law_built_network_walks(t, b, v, w);
    lemma_walk_ok_ends(t.arena, t.roots, (b.inputs as nat) * walk_cost(b, b.hidden_layers + 1));
}


proof fn lemma_set_inputs_prefix<T>(arena: Seq<Option<TreeNode<T>>>, roots: Seq<Option<TreeIndex>>, i1: Seq<T>, i2: Seq<T>, n: int)
    requires
        0 <= n <= i1.len(),
        n <= i2.len(),
        i1.take(n) == i2.take(n),
    ensures
        set_inputs(arena, roots, i1, n) == set_inputs(arena, roots, i2, n),
    decreases n,
{
    if n > 0 {
        assert(i1.take(n - 1) =~= i2.take(n - 1)) by {
            assert forall|k: int| 0 <= k < n - 1 implies #[trigger] i1.take(n - 1)[k] == i2.take(n - 1)[k] by {
                assert(i1.take(n)[k] == i2.take(n)[k]);
            }
        }
        lemma_set_inputs_prefix(arena, roots, i1, i2, n - 1);
        assert(i1.take(n)[n - 1] == i2.take(n)[n - 1]);
        assert(i1.take(n)[n - 1] == i1[n - 1]);
        assert(i2.take(n)[n - 1] == i2[n - 1]);
    }
}

proof fn lemma_df_run_prefix<T, F: Fn(T, T, T) -> T>(
    arena: Seq<Option<TreeNode<T>>>, mac: F, roots: Seq<Option<TreeIndex>>, i1: Seq<T>, i2: Seq<T>, i: int, n: nat,
)
    requires
        0 <= i <= i1.len(),
        i <= i2.len(),
        i1.take(i) == i2.take(i),
    ensures
        df_run(arena, mac, roots, i1, i, n) == df_run(arena, mac, roots, i2, i, n),
    decreases i,
{
    if i > 0 {
        assert(i1.take(i - 1) =~= i2.take(i - 1)) by {
            assert forall|k: int| 0 <= k < i - 1 implies #[trigger] i1.take(i - 1)[k] == i2.take(i - 1)[k] by {
                assert(i1.take(i)[k] == i2.take(i)[k]);
            }
        }
        lemma_df_run_prefix(arena, mac, roots, i1, i2, i - 1, n);
        assert(i1.take(i)[i - 1] == i2.take(i)[i - 1]);
        assert(i1.take(i)[i - 1] == i1[i - 1]);
        assert(i2.take(i)[i - 1] == i2[i - 1]);
    }
}

/// `run_through_bf` and `run_through_df` read only the first `roots.len()`
/// inputs: two input sequences that agree there give the same run.
pub proof fn law_runs_read_only_root_inputs<T, F: Fn(T, T, T) -> T, G: Fn(T) -> T>(
    arena: Seq<Option<TreeNode<T>>>, mac: F, squish: G, roots: Seq<Option<TreeIndex>>, i1: Seq<T>, i2: Seq<T>, n: nat,
)
    requires
        i1.len() >= roots.len(),
        i2.len() >= roots.len(),
        i1.take(roots.len() as int) == i2.take(roots.len() as int),
    ensures
        run_layers(set_inputs(arena, roots, i1, roots.len() as int), mac, squish, roots, Seq::empty(), n)
            == run_layers(set_inputs(arena, roots, i2, roots.len() as int), mac, squish, roots, Seq::empty(), n),
        df_run(arena, mac, roots, i1, roots.len() as int, n) == df_run(arena, mac, roots, i2, roots.len() as int, n),
{
    lemma_set_inputs_prefix(arena, roots, i1, i2, roots.len() as int);
    lemma_df_run_prefix(arena, mac, roots, i1, i2, roots.len() as int, n);
}

proof fn lemma_built_run_frame<T, F: Fn(T, T, T) -> T, G: Fn(T) -> T>(
    t: TreeView<T>, b: TreeBuilder, v: T, w: T,
    a: Seq<Option<TreeNode<T>>>, mac: F, squish: G, l: int, opts: Seq<T>, n: nat, p: int,
)
    requires
        is_layered(t, b, v, w),
        network_size(b) <= usize::MAX,
        0 <= l <= b.hidden_layers + 1,
        layer_len(b, l) > 0,
        same_shape(a, t.arena),
        drains(a, layer_indices(b, l), n),
        layer_start(b, l) <= p < network_size(b),
    ensures
        value_at(run_layers(a, mac, squish, layer_indices(b, l), opts, n).0, p) == value_at(a, p),
    decreases l,
{
    let crnt = layer_indices(b, l);
    let tg = layer_targets(b, l);
    lemma_layer_defined_built(t, b, v, w, l);
    lemma_layer_shape(a, t.arena, crnt);
    crate::iter::lemma_shape_present(a, t.arena);
    lemma_layer_bounds(b, l);
    if l > 0 {
        lemma_layer_bounds(b, l - 1);
    }
    assert forall|k: int| 0 <= k < tg.len() implies #[trigger] tg[k].unwrap() as int != p by {
        lemma_pos_bounds(b, l - 1, k);
    }
    assert forall|i: int, k: int| 0 <= i < crnt.len() && 0 <= k < edge_count(a[crnt[i].unwrap() as int].unwrap())
        implies #[trigger] a[crnt[i].unwrap() as int].unwrap().next_nodes@[k].unwrap() as int != p by {
        lemma_pos_bounds(b, l, i);
        let c = layer_pos(b, l, i);
        assert(crnt[i] == Some(c as TreeIndex));
        assert(holds_node(t.arena, c, v, w, tg));
        assert(present(a, c));
        assert(a[c].unwrap().next_nodes@ == t.arena[c].unwrap().next_nodes@);
        assert(tg[k].unwrap() as int != p);
    }
    lemma_layer_frame(a, mac, squish, crnt, p);
    let nx = next_layer_of(a, crnt);
    let a2 = layer_arena(a, mac, squish, crnt);
    if nx.len() != 0 && n != 0 {
        lemma_layer_arena_shape(a, mac, squish, crnt);
        lemma_same_shape_sym(a2, a);
        lemma_drains_shape(a, a2, nx, (n - 1) as nat);
        lemma_same_shape_trans(a2, a, t.arena);
        assert(nx == layer_indices(b, l - 1));
        lemma_built_run_frame(t, b, v, w, a2, mac, squish, l - 1, layer_output(a, mac, squish, crnt), (n - 1) as nat, p);
    }
}

proof fn lemma_set_inputs_values<T>(t: TreeView<T>, b: TreeBuilder, v: T, w: T, inputs: Seq<T>, n: int)
    requires
        is_layered(t, b, v, w),
        network_size(b) <= usize::MAX,
        0 <= n <= b.inputs,
        inputs.len() >= b.inputs,
    ensures
        forall|q: int| 0 <= q < n ==> #[trigger] value_at(set_inputs(t.arena, t.roots, inputs, n), layer_pos(b, b.hidden_layers + 1, q))
            == inputs[q],
        set_inputs(t.arena, t.roots, inputs, n).len() == t.arena.len(),
    decreases n,
{
    let h1 = b.hidden_layers + 1;
    if n > 0 {
        lemma_set_inputs_values(t, b, v, w, inputs, n - 1);
        if b.inputs > 0 {
            law_built_network_runs(t, b, v, w);
        }
        lemma_set_inputs_shape(t.arena, t.roots, inputs, n - 1);
        let a = set_inputs(t.arena, t.roots, inputs, n - 1);
        lemma_pos_bounds(b, h1, n - 1);
        let r = layer_pos(b, h1, n - 1);
        assert(t.roots[n - 1] == Some(r as TreeIndex));
        assert(r as TreeIndex as int == r);
        crate::iter::lemma_shape_present(a, t.arena);
        assert(all_present(t.arena, t.roots));
        assert(present(t.arena, r));
        assert(present(a, r));
        assert forall|q: int| 0 <= q < n implies #[trigger] value_at(set_inputs(t.arena, t.roots, inputs, n), layer_pos(b, h1, q)) == inputs[q] by {
            lemma_pos_bounds(b, h1, q);
            let pq = layer_pos(b, h1, q);
            assert(set_inputs(t.arena, t.roots, inputs, n) == crate::shape::with_value(a, r, inputs[n - 1]));
            if q < n - 1 {
                assert(pq != r);
                assert(value_at(a, pq) == inputs[q]);
            }
        }
    }
}

/// In a network built by `Tree::new`, no edge leads to an input, so after a
/// `run_through_bf` each root still holds the input it was given.
pub proof fn law_built_run_keeps_inputs<T, F: Fn(T, T, T) -> T, G: Fn(T) -> T>(
    t: TreeView<T>, b: TreeBuilder, v: T, w: T, mac: F, squish: G, inputs: Seq<T>, n: nat,
)
    requires
        is_layered(t, b, v, w),
        network_size(b) <= usize::MAX,
        inputs.len() >= b.inputs,
        drains(t.arena, t.roots, n),
    ensures
        forall|q: int| 0 <= q < b.inputs ==> #[trigger] value_at(
            run_layers(set_inputs(t.arena, t.roots, inputs, t.roots.len() as int), mac, squish, t.roots, Seq::empty(), n).0,
            layer_pos(b, b.hidden_layers + 1, q),
        ) == inputs[q],
{
    let h1 = b.hidden_layers + 1;
    let start = set_inputs(t.arena, t.roots, inputs, t.roots.len() as int);
    if b.inputs > 0 {
        law_built_network_runs(t, b, v, w);
        lemma_set_inputs_values(t, b, v, w, inputs, b.inputs as int);
        lemma_set_inputs_shape(t.arena, t.roots, inputs, t.roots.len() as int);
        lemma_same_shape_sym(start, t.arena);
        lemma_drains_shape(t.arena, start, t.roots, n);
        assert forall|q: int| 0 <= q < b.inputs implies #[trigger] value_at(
            run_layers(start, mac, squish, t.roots, Seq::empty(), n).0, layer_pos(b, h1, q)) == inputs[q] by {
            lemma_pos_bounds(b, h1, q);
            lemma_layer_bounds(b, h1);
            lemma_built_run_frame(t, b, v, w, start, mac, squish, h1, Seq::empty(), n, layer_pos(b, h1, q));
            assert(value_at(start, layer_pos(b, h1, q)) == inputs[q]);
        }
    }
}

} // verus!
