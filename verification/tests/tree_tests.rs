//! Object hierarchy behavior: nodes and the tree container.

use geomcore::{Tree, TreeNode};

#[test]
fn treenode_test_test_treenode_constructor() {
    // Test TreeNode constructor
    let node = TreeNode::new("root");
    assert_eq!(node.name(), "root");
    assert!(node.is_root());
}

#[test]
fn tree_test_test_treenode_constructor() {
    // Test TreeNode constructor
    let node = TreeNode::new("root");
    assert_eq!(node.name(), "root");
    assert!(node.is_root());
}

#[test]
fn test_treenode_add() {
    // Nodes own their children, so a child is moved in when added.
    let mut parent = TreeNode::new("parent");
    let child = TreeNode::new("child");
    parent.add(child);
    assert_eq!(parent.children().len(), 1);
    assert!(!parent.children()[0].is_root());
}

#[test]
fn test_treenode_remove() {
    let mut parent = TreeNode::new("parent");
    let child = TreeNode::new("child");
    let handle = TreeNode {
        guid: child.guid.clone(),
        name: child.name.clone(),
        has_parent: child.has_parent,
        children: Vec::new(),
    };
    parent.add(child);
    assert!(parent.remove(&handle));
    assert_eq!(parent.children().len(), 0);
}

#[test]
fn test_treenode_traverse() {
    let mut root = TreeNode::new("root");
    let child = TreeNode::new("child");
    root.add(child);
    let nodes = root.traverse("depthfirst", "preorder");
    assert_eq!(nodes.len(), 2);
    assert_eq!(nodes[0], root);
}

#[test]
fn test_treenode_postorder_traverse() {
    let mut root = TreeNode::new("root");
    let child = TreeNode::new("child");
    root.add(child);
    let nodes = root.traverse("depthfirst", "postorder");
    assert_eq!(nodes.len(), 2);
    assert_eq!(nodes[1], root);
    let bfs = root.traverse("breadthfirst", "");
    assert_eq!(bfs[0], root);
}

#[test]
fn test_tree_constructor() {
    // Test Tree constructor
    let tree = Tree::new("my_tree");
    assert_eq!(tree.name, "my_tree");
    assert!(tree.root().is_none());
}

#[test]
fn test_tree_add() {
    // Test Tree add method
    let mut tree = Tree::new("my_tree");
    let root = TreeNode::new("root");
    tree.add(&root, None);
    assert_eq!(tree.root().unwrap(), root);
    assert_eq!(tree.nodes().len(), 1);
}

#[test]
fn test_tree_add_under_parent() {
    let mut tree = Tree::new("my_tree");
    let root = TreeNode::new("root");
    let child = TreeNode::new("child");
    tree.add(&root, None);
    tree.add(&child, Some(&root));
    assert_eq!(tree.nodes().len(), 2);
    assert_eq!(tree.get_children_guids(&root.guid).len(), 1);
}

#[test]
fn test_tree_remove() {
    // Test Tree remove method
    let mut tree = Tree::new("my_tree");
    let root = TreeNode::new("root");

    tree.add(&root, None);
    tree.remove(&root);

    assert!(tree.root().is_none());
}

#[test]
fn test_tree_get_node_by_name() {
    // Test Tree get_node_by_name method
    let mut tree = Tree::new("my_tree");
    let root = TreeNode::new("root");
    tree.add(&root, None);
    let found = tree.get_node_by_name("root");
    assert_eq!(found.unwrap(), root);
}

#[test]
fn test_tree_find_and_leaves() {
    let mut tree = Tree::new("t");
    let root = TreeNode::new("root");
    let child = TreeNode::new("leafy");
    tree.add(&root, None);
    tree.add(&child, Some(&root));
    let found = tree.find_node_by_guid(&child.guid);
    assert_eq!(found.unwrap().name(), "leafy");
    let leaves = tree.leaves();
    assert_eq!(leaves.len(), 1);
    assert_eq!(leaves[0].name(), "leafy");
    assert_eq!(tree.get_nodes_by_name("root").len(), 1);
}
