use tree_net::control::{key_step, COOL_DOWN};
use tree_net::iter::PreorderIter;
use tree_net::node::TreeNode;
use tree_net::rank::{end_generation, episode_succeeded, sort_by_score};
use tree_net::tree::{Tree, TreeBuilder};

fn mac(acc: f32, x: f32, w: f32) -> f32 {
    acc + x * w
}

fn small_net() -> Tree<f32> {
    // 2 inputs, 1 output, one hidden layer of 2 nodes
    Tree::new(TreeBuilder::new(2, 1, 1, 2), 0.0, 0.5)
}

#[test]
fn builder_keeps_its_fields() {
    let b = TreeBuilder::new(4, 2, 3, 5);
    assert_eq!((b.inputs, b.outputs, b.hidden_layers, b.inner_depth), (4, 2, 3, 5));
}

#[test]
fn new_lays_out_layers_from_the_output_side() {
    let t = small_net();
    assert_eq!(t.node_at(0).unwrap().next_nodes, Vec::<Option<usize>>::new());
    assert_eq!(t.node_at(1).unwrap().next_nodes, vec![Some(0)]);
    assert_eq!(t.node_at(2).unwrap().next_nodes, vec![Some(0)]);
    assert_eq!(t.node_at(3).unwrap().next_nodes, vec![Some(1), Some(2)]);
    assert_eq!(t.node_at(4).unwrap().next_nodes, vec![Some(1), Some(2)]);
    assert_eq!(t.node_at(4).unwrap().weights, vec![0.5, 0.5]);
    assert_eq!(t.node_at(3).unwrap().value, 0.0);
    assert!(t.node_at(5).is_none());
    let mut it = t.iter();
    assert_eq!(it.next(&t), Some(4));
}

#[test]
fn new_without_hidden_layers_links_inputs_to_outputs() {
    let t: Tree<f32> = Tree::new(TreeBuilder::new(2, 3, 0, 7), 1.0, 0.25);
    assert_eq!(t.node_at(3).unwrap().next_nodes, vec![Some(0), Some(1), Some(2)]);
    assert_eq!(t.node_at(4).unwrap().weights, vec![0.25, 0.25, 0.25]);
    assert!(t.node_at(5).is_none());
}

#[test]
fn new_with_empty_hidden_layers_leaves_inputs_unlinked() {
    let t: Tree<f32> = Tree::new(TreeBuilder::new(1, 2, 2, 0), 0.0, 0.5);
    assert_eq!(t.node_at(2).unwrap().next_nodes, Vec::<Option<usize>>::new());
    assert!(t.node_at(3).is_none());
}

#[test]
fn add_node_returns_the_next_index() {
    let mut t = small_net();
    let i = t.add_node(TreeNode::new(7.0, vec![Some(0)], vec![1.0]));
    assert_eq!(i, 5);
    assert_eq!(t.node_at(5).unwrap().value, 7.0);
    assert!(t.node_at_mut(6).is_none());
}

#[test]
fn run_through_bf_returns_the_output_layer() {
    let mut t = small_net();
    let out = t.run_through_bf(&[1.0, 2.0], &mac, &|v: f32| v * 2.0);
    assert_eq!(out, vec![6.0]);
    assert_eq!(t.node_at(1).unwrap().value, 3.0);
    assert_eq!(t.node_at(0).unwrap().value, 6.0);
}

#[test]
fn run_through_bf_with_unlinked_inputs_returns_nothing() {
    let mut t: Tree<f32> = Tree::new(TreeBuilder::new(1, 2, 2, 0), 0.0, 0.5);
    let out = t.run_through_bf(&[3.0], &mac, &|v: f32| v);
    assert!(out.is_empty());
    assert_eq!(t.node_at(2).unwrap().value, 3.0);
}

#[test]
fn run_through_bf_sigmoid_gives_one_value_per_output() {
    let mut t: Tree<f32> = Tree::new(TreeBuilder::new(4, 2, 0, 1), 0.0, 0.5);
    let out = t.run_through_bf(&[0.1, 0.2, 0.3, 0.4], &mac, &|v: f32| 1.0 / (1.0 + 2.71828_f32.powf(-v)));
    assert_eq!(out.len(), 2);
    assert!(out[0] > 0.5 && out[0] < 1.0);
}

#[test]
fn next_layer_moves_one_layer() {
    let mut t = small_net();
    t.node_at_mut(3).unwrap().value = 1.0;
    t.node_at_mut(4).unwrap().value = 2.0;
    let mut it = PreorderIter::new(vec![Some(3), Some(4)]);
    let acts = it.next_layer(&mut t, &mac, &|v: f32| v + 1.0);
    assert_eq!(acts, Some(vec![2.5, 2.5]));
    let acts = it.next_layer(&mut t, &mac, &|v: f32| v + 1.0);
    assert_eq!(acts, Some(vec![3.5]));
    let acts = it.next_layer(&mut t, &mac, &|v: f32| v + 1.0);
    assert_eq!(acts, None);
}

#[test]
fn run_through_df_feeds_along_the_walk_for_each_root() {
    let mut t = small_net();
    t.run_through_df(&[1.0, 2.0], &mac);
    assert_eq!(t.node_at(1).unwrap().value, 2.0);
    assert_eq!(t.node_at(2).unwrap().value, 2.0);
    assert_eq!(t.node_at(0).unwrap().value, 4.0);
}

#[test]
fn readiness_queries() {
    let t = small_net();
    assert!(t.layers_drain_within(2));
    assert!(!t.layers_drain_within(0));
    assert!(t.walk_completes_within(100));
    assert!(!t.walk_completes_within(3));
    // walk from [3,4]: 4, 2, 0, 1, 0, 3, 2, 0, 1, 0 -> weights used 2+1+0+1+0+2+1+0+1+0
    assert_eq!(t.noise_needed_within(100), Some(8));
    assert_eq!(t.noise_needed_within(2), None);
    let mut cyclic: Tree<f32> = Tree::new(TreeBuilder::new(0, 0, 0, 0), 0.0, 0.5);
    let a = cyclic.add_node(TreeNode::new(1.0, vec![Some(0)], vec![1.0]));
    cyclic.add_root(Some(a));
    assert!(!cyclic.layers_drain_within(50));
    assert!(!cyclic.walk_completes_within(50));
    let mut broken: Tree<f32> = Tree::new(TreeBuilder::new(0, 0, 0, 0), 0.0, 0.5);
    broken.add_root(None);
    assert!(!broken.layers_drain_within(5));
    assert!(!broken.walk_completes_within(5));
}

#[test]
fn perturb_weights_nudges_weights_in_walk_order() {
    let mut t: Tree<f32> = Tree::new(TreeBuilder::new(1, 2, 0, 0), 0.0, 0.5);
    // node 2 is the input, feeding outputs 0 and 1
    t.perturb_weights(&[1.0, 2.0], 0.5, &mac);
    assert_eq!(t.node_at(2).unwrap().weights, vec![1.0, 1.5]);
    assert_eq!(t.node_at(2).unwrap().next_nodes, vec![Some(0), Some(1)]);
    assert_eq!(t.node_at(2).unwrap().value, 0.0);
}

#[test]
fn next_skips_absent_nodes() {
    let mut t: Tree<f32> = Tree::new(TreeBuilder::new(0, 0, 0, 0), 0.0, 0.5);
    let a = t.add_node(TreeNode::new(1.0, vec![Some(9)], vec![]));
    let mut it = PreorderIter::new(vec![Some(a), Some(42)]);
    assert_eq!(it.next(&t), Some(a));
    // 9 is absent and is dropped
    assert_eq!(it.next(&t), None);
}

#[test]
fn sort_by_score_is_ascending_and_stable() {
    let mut pool = vec![("a", 3usize), ("b", 1), ("c", 3), ("d", 2)];
    sort_by_score(&mut pool);
    assert_eq!(pool, vec![("b", 1), ("d", 2), ("a", 3), ("c", 3)]);
    let mut empty: Vec<(u8, usize)> = vec![];
    sort_by_score(&mut empty);
    assert!(empty.is_empty());
}

#[test]
fn runs_keep_edges_and_weights() {
    let mut t = small_net();
    let before: Vec<(Vec<Option<usize>>, Vec<f32>)> =
        (0..5).map(|i| (t.node_at(i).unwrap().next_nodes.clone(), t.node_at(i).unwrap().weights.clone())).collect();
    t.run_through_bf(&[1.0, -1.0], &mac, &|v: f32| v * 0.5);
    t.run_through_df(&[2.0, 3.0], &mac);
    for i in 0..5 {
        assert_eq!(t.node_at(i).unwrap().next_nodes, before[i].0);
        assert_eq!(t.node_at(i).unwrap().weights, before[i].1);
    }
}

#[test]
fn built_network_can_be_perturbed_everywhere() {
    let mut t = small_net();
    let n = t.noise_needed_within(usize::MAX).unwrap();
    assert_eq!(n, 8);
    let noise: Vec<f32> = (0..n).map(|k| k as f32).collect();
    t.perturb_weights(&noise, 1.0, &mac);
    // walk order 4, 2, 0, 1, 0, 3, 2, 0, 1, 0 uses noise 0..8 in turn
    assert_eq!(t.node_at(4).unwrap().weights, vec![0.5, 1.5]);
    assert_eq!(t.node_at(2).unwrap().weights, vec![0.5 + 2.0 + 6.0]);
    assert_eq!(t.node_at(1).unwrap().weights, vec![0.5 + 3.0 + 7.0]);
    assert_eq!(t.node_at(3).unwrap().weights, vec![4.5, 5.5]);
    assert_eq!(t.node_at(0).unwrap().value, 0.0);
}

#[test]
fn root_count_counts_roots() {
    let mut t = small_net();
    assert_eq!(t.root_count(), 2);
    t.add_root(None);
    assert_eq!(t.root_count(), 3);
}

#[test]
fn end_generation_ranks_and_decides() {
    let mut pool = vec![("a", 10001usize), ("b", 5), ("c", 7)];
    assert!(end_generation(&mut pool));
    assert_eq!(pool, vec![("b", 5), ("c", 7), ("a", 10001)]);
    let mut pool = vec![("a", 10000usize), ("b", 5)];
    assert!(!end_generation(&mut pool));
    assert_eq!(pool[1], ("a", 10000));
}

#[test]
fn episode_succeeded_past_the_goal() {
    assert!(!episode_succeeded(100000));
    assert!(episode_succeeded(100001));
}

#[test]
fn extra_inputs_are_ignored_and_roots_keep_theirs() {
    let mut t1 = small_net();
    let mut t2 = small_net();
    let r1 = t1.run_through_bf(&[1.0, 2.0, 99.0, -5.0], &mac, &|v: f32| v * 2.0);
    let r2 = t2.run_through_bf(&[1.0, 2.0], &mac, &|v: f32| v * 2.0);
    assert_eq!(r1, r2);
    for i in 0..5 {
        assert_eq!(t1.node_at(i).unwrap().value, t2.node_at(i).unwrap().value);
    }
    assert_eq!(t1.node_at(3).unwrap().value, 1.0);
    assert_eq!(t1.node_at(4).unwrap().value, 2.0);
}

#[test]
fn walk_visits_each_node_once_per_path() {
    // r -> a, b; a -> c; b -> c: c is reached along two paths
    let mut t: Tree<f32> = Tree::new(TreeBuilder::new(0, 0, 0, 0), 0.0, 0.5);
    let c = t.add_node(TreeNode::new(0.0, vec![], vec![]));
    let a = t.add_node(TreeNode::new(0.0, vec![Some(c)], vec![1.0]));
    let b = t.add_node(TreeNode::new(0.0, vec![Some(c)], vec![1.0]));
    let r = t.add_node(TreeNode::new(0.0, vec![Some(a), Some(b)], vec![1.0, 1.0]));
    t.add_root(Some(r));
    let mut it = t.iter();
    let mut seen = Vec::new();
    while let Some(n) = it.next(&t) {
        seen.push(n);
    }
    assert_eq!(seen, vec![r, b, c, a, c]);
}

#[test]
fn key_step_pushes_then_cools_down() {
    let s = key_step(0, true, false);
    assert!(s.push_left && !s.push_right);
    assert_eq!(s.cool, COOL_DOWN);
    let s = key_step(0, true, true);
    assert!(s.push_left && s.push_right);
    let s = key_step(0, false, false);
    assert!(!s.push_left && !s.push_right);
    assert_eq!(s.cool, 0);
    let s = key_step(5, true, true);
    assert!(!s.push_left && !s.push_right);
    assert_eq!(s.cool, 4);
}

#[test]
fn arena_full_needs_a_node_in_every_slot() {
    assert!(small_net().arena_full());
    let empty: Tree<f32> = Tree::new(TreeBuilder::new(0, 0, 0, 0), 0.0, 0.5);
    assert!(!empty.arena_full());
}
