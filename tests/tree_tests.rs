use rust_calc_term::tree::{ChildSide, PostOrderIter, Tree, TreeNode};

#[test]
fn tree_add_minimal() {
    let mut tree = Tree::<&str>::new();

    let index_loc = tree.add_node(TreeNode::new("a"));

    assert_eq!(0, index_loc);
}

#[test]
fn tree_add_a_few() {
    let mut tree = Tree::<&str>::new();

    let a = tree.add_node(TreeNode::new("a"));
    let b = tree.add_node(TreeNode::new("b"));
    let c = tree.add_node_with_children(TreeNode::new("c"), Some(a), Some(b));

    assert_eq!(2, c);
}

#[test]
fn tree_postorder_empty() {
    let tree = Tree::<&str>::new();

    let mut output = String::from("");
    let mut postorder = PostOrderIter::new(&tree);
    while let Some(index) = postorder.next() {
        let node = tree.node_at(index).expect("Node does not exist at given index");
        output.push_str(&node.value.to_string());
    }
    assert_eq!("", output);
}

#[test]
fn tree_postorder_index_minimal() {
    let mut tree = Tree::<&str>::new();

    let a = tree.add_node(TreeNode::new("a"));
    tree.set_root(Some(a));

    let mut postorder = PostOrderIter::new(&tree);
    let index_loc = postorder.next().expect("Node does not exist at given index");

    assert_eq!(0, index_loc);
}

#[test]
fn tree_postorder_minimal() {
    let mut tree = Tree::<&str>::new();

    let a = tree.add_node(TreeNode::new("a"));
    tree.set_root(Some(a));

    let mut output = String::from("");
    let mut postorder = PostOrderIter::new(&tree);
    while let Some(index) = postorder.next() {
        let node = tree.node_at(index).expect("Node does not exist at given index");
        output.push_str(&node.value.to_string());
    }
    assert_eq!("a", output);
}

// example tree from https://en.wikipedia.org/wiki/Tree_traversal#Post-order_(LRN)

#[test]
fn tree_postorder_complex() {
    let mut tree = Tree::<&str>::new();

    let a = tree.add_node(TreeNode::new("a"));
    let c = tree.add_node(TreeNode::new("c"));
    let e = tree.add_node(TreeNode::new("e"));
    let d = tree.add_node_with_children(TreeNode::new("d"), Some(c), Some(e));
    let b = tree.add_node_with_children(TreeNode::new("b"), Some(a), Some(d));
    let h = tree.add_node(TreeNode::new("h"));
    let i = tree.add_node_with_children(TreeNode::new("i"), Some(h), None);
    let g = tree.add_node_with_children(TreeNode::new("g"), None, Some(i));
    let f = tree.add_node_with_children(TreeNode::new("f"), Some(b), Some(g));
    tree.set_root(Some(f));

    let mut output = String::from("");
    let mut postorder = PostOrderIter::new(&tree);
    while let Some(index) = postorder.next() {
        let node = tree.node_at(index).expect("Node does not exist at given index");
        output.push_str(&node.value.to_string());
    }
    assert_eq!("acedbhigf", output);
}

#[test]
fn tree_set_child_moves_parent_link() {
    let mut tree = Tree::<&str>::new();
    let a = tree.add_node(TreeNode::new("a"));
    let b = tree.add_node(TreeNode::new("b"));
    let c = tree.add_node(TreeNode::new("c"));
    assert!(tree.set_node_child(a, Some(b), ChildSide::Left).is_ok());
    assert_eq!(Some(a), tree.get_node_parent(b));
    assert!(tree.set_node_child(a, Some(c), ChildSide::Left).is_ok());
    assert_eq!(None, tree.get_node_parent(b));
    assert_eq!(Some(a), tree.get_node_parent(c));
    assert!(tree.set_node_child(a, Some(9), ChildSide::Right).is_err());
    assert!(tree.set_node_child(9, Some(a), ChildSide::Right).is_err());
    assert_eq!(None, tree.node_at(a).unwrap().get_right());
}

#[test]
fn tree_replace_root_and_insert_above() {
    let mut tree = Tree::<&str>::new();
    let one = tree.add_node(TreeNode::new("1"));
    tree.set_root(Some(one));
    let plus = tree.add_node(TreeNode::new("+"));
    assert!(tree.replace_root_with_node(plus, ChildSide::Left).is_ok());
    assert!(tree.matches_root(plus));
    assert_eq!(Some(plus), tree.get_node_parent(one));
    let two = tree.add_node(TreeNode::new("2"));
    assert!(tree.set_node_child(plus, Some(two), ChildSide::Right).is_ok());
    let times = tree.add_node(TreeNode::new("*"));
    assert!(tree.insert_node_above_node(two, times, ChildSide::Left).is_ok());
    assert_eq!(Some(times), tree.node_at(plus).unwrap().get_right());
    assert_eq!(Some(two), tree.node_at(times).unwrap().get_left());
    assert!(tree.insert_node_above_node(plus, one, ChildSide::Left).is_err());

    let mut output = String::new();
    let mut postorder = PostOrderIter::new(&tree);
    while let Some(index) = postorder.next() {
        output.push_str(tree.node_at(index).unwrap().value);
    }
    assert_eq!("12*+", output);
}

#[test]
fn tree_replace_root_needs_root() {
    let mut tree = Tree::<&str>::new();
    let a = tree.add_node(TreeNode::new("a"));
    assert!(tree.replace_root_with_node(a, ChildSide::Left).is_err());
    assert!(!tree.has_root());
}

#[test]
fn tree_remove_tombstones_slot() {
    let mut tree = Tree::<&str>::new();
    let a = tree.add_node(TreeNode::new("a"));
    let b = tree.add_node(TreeNode::new("b"));
    assert_eq!("a", tree.remove_node_at(a).unwrap().value);
    assert!(tree.remove_node_at(a).is_none());
    assert!(tree.node_at(a).is_none());
    assert!(tree.has_node_at(a));
    assert!(!tree.has_node_at(5));
    assert_eq!(2, tree.add_node(TreeNode::new("c")));
    assert_eq!("b", tree.node_at(b).unwrap().value);
}

#[test]
fn tree_copy_child_and_mutate_value() {
    let mut tree = Tree::<&str>::new();
    let a = tree.add_node(TreeNode::new("a"));
    let b = tree.add_node(TreeNode::new("b"));
    let c = tree.add_node_with_children(TreeNode::new("c"), Some(a), None);
    assert!(tree.set_node_child_from_node_child(b, ChildSide::Right, c, ChildSide::Left).is_ok());
    assert_eq!(Some(a), tree.node_at(b).unwrap().get_right());
    assert_eq!(Some(c), tree.get_node_parent(a));
    assert!(tree.set_node_child_from_node_child(b, ChildSide::Right, 7, ChildSide::Left).is_err());
    tree.node_at_mut(b).unwrap().set_value("z");
    assert_eq!("z", tree.node_at(b).unwrap().value);
    assert!(tree.node_at(c).unwrap().has_left());
    assert!(!tree.node_at(c).unwrap().has_right());
}

#[test]
fn tree_replace_cleared_root() {
    let mut tree = Tree::<&str>::new();
    let a = tree.add_node(TreeNode::new("a"));
    tree.set_root(Some(a));
    tree.remove_node_at(a);
    let b = tree.add_node(TreeNode::new("b"));
    assert!(tree.replace_root_with_node(b, ChildSide::Left).is_ok());
    assert_eq!(Some(b), tree.get_root());
    assert_eq!(Some(a), tree.node_at(b).unwrap().get_left());
    assert_eq!(None, tree.get_node_parent(b));
}

#[test]
fn tree_postorder_ignores_unreachable_cycle() {
    let mut tree = Tree::<&str>::new();
    let a = tree.add_node(TreeNode::new("a"));
    let b = tree.add_node(TreeNode::new("b"));
    let x = tree.add_node(TreeNode::new("x"));
    let y = tree.add_node(TreeNode::new("y"));
    let r = tree.add_node_with_children(TreeNode::new("r"), Some(a), Some(b));
    tree.set_root(Some(r));
    assert!(tree.set_node_child(x, Some(y), ChildSide::Left).is_ok());
    assert!(tree.set_node_child(y, Some(x), ChildSide::Left).is_ok());

    let mut output = String::new();
    let mut postorder = PostOrderIter::new(&tree);
    while let Some(index) = postorder.next() {
        output.push_str(tree.node_at(index).unwrap().value);
    }
    assert_eq!("abr", output);
    assert_eq!(None, postorder.next());
}

#[test]
fn tree_postorder_skips_removed_child() {
    let mut tree = Tree::<&str>::new();
    let a = tree.add_node(TreeNode::new("a"));
    let b = tree.add_node(TreeNode::new("b"));
    let r = tree.add_node_with_children(TreeNode::new("r"), Some(a), Some(b));
    tree.set_root(Some(r));
    tree.remove_node_at(a);

    let mut output = String::new();
    let mut postorder = PostOrderIter::new(&tree);
    while let Some(index) = postorder.next() {
        output.push_str(tree.node_at(index).unwrap().value);
    }
    assert_eq!("br", output);
}
