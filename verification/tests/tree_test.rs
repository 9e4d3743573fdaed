use tree_net::node::TreeNode;
use tree_net::tree::{Tree, TreeBuilder};

fn empty_tree() -> Tree<f32> {
    Tree::new(
        TreeBuilder {
            inputs: 0,
            outputs: 0,
            hidden_layers: 0,
            inner_depth: 0,
        },
        0.0,
        0.5,
    )
}

#[test]
fn traversal_test() {
    let mut tree = empty_tree();
    let a = tree.add_node(TreeNode::new(4.0, vec![], vec![]));
    let b = tree.add_node(TreeNode::new(5.0, vec![], vec![]));
    let f = tree.add_node(TreeNode::new(6.0, vec![], vec![]));
    let d = tree.add_node(TreeNode::new(3.0, vec![], vec![]));
    let c = tree.add_node(TreeNode::new(2.0, vec![Some(a), Some(b), Some(f)], vec![]));
    let e = tree.add_node(TreeNode::new(1.0, vec![Some(c), Some(d)], vec![]));
    tree.add_root(Some(e));
    let mut pos_iter = tree.iter();
    let mut values = Vec::new();
    while let Some(node) = pos_iter.next(&tree) {
        let node = tree.node_at(node).unwrap();
        values.push(node.value);
    }
    assert_eq!(values, vec![1.0, 3.0, 2.0, 6.0, 5.0, 4.0]);
}

#[test]
fn tree_mut() {
    let mut tree = empty_tree();
    let a = tree.add_node(TreeNode::new(4.0, vec![], vec![]));
    let b = tree.add_node(TreeNode::new(5.0, vec![], vec![]));
    let f = tree.add_node(TreeNode::new(6.0, vec![], vec![]));
    let d = tree.add_node(TreeNode::new(3.0, vec![], vec![]));
    let c = tree.add_node(TreeNode::new(2.0, vec![Some(a), Some(b), Some(f)], vec![]));
    let e = tree.add_node(TreeNode::new(1.0, vec![Some(c), Some(d)], vec![]));
    tree.add_root(Some(e));

    let mut pos_iter = tree.iter();
    while let Some(node) = pos_iter.next(&tree) {
        let node = tree.node_at_mut(node).unwrap();
        node.value *= 10.0;
    }

    let mut pos_iter = tree.iter();
    let mut values = Vec::new();
    while let Some(node) = pos_iter.next(&tree) {
        let node = tree.node_at(node).unwrap();
        values.push(node.value);
    }
    assert_eq!(values, vec![10.0, 30.0, 20.0, 60.0, 50.0, 40.0]);
}
