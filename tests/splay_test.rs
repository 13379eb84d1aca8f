use yorkie::splay::{Node, Tree};

#[test]
fn new_tree_weight() {
    let tree = Tree::new(Node::new("hello".to_string()));
    assert_eq!(tree.root(), Some(0));
    assert_eq!(tree.weight(0), 5);
}

#[test]
fn node_value() {
    let node = Node::new("abc".to_string());
    assert_eq!(node.value(), "abc");
}

#[test]
fn insert_keeps_weights() {
    let mut tree = Tree::new(Node::new("ab".to_string()));
    let b = tree.insert(Node::new("cde".to_string()));
    assert_eq!(b, 1);
    assert_eq!(tree.root(), Some(1));
    assert_eq!(tree.weight(1), 5);
    assert_eq!(tree.weight(0), 2);
    let c = tree.insert_after(0, Node::new("f".to_string()));
    assert_eq!(c, 2);
    assert_eq!(tree.root(), Some(2));
    assert_eq!(tree.weight(2), 6);
    assert_eq!(tree.weight(0), 2);
    assert_eq!(tree.weight(1), 3);
}

#[test]
fn splay_brings_node_to_root() {
    let mut tree = Tree::new(Node::new("a".to_string()));
    for s in ["bb", "ccc", "dddd", "eeeee"] {
        tree.insert(Node::new(s.to_string()));
    }
    assert_eq!(tree.weight(tree.root().unwrap()), 15);
    for i in [0usize, 3, 1, 4, 2, 0] {
        tree.splay(i);
        assert_eq!(tree.root(), Some(i));
        assert_eq!(tree.weight(i), 15);
    }
}

#[test]
fn update_subtree_recomputes_weight() {
    let mut tree = Tree::new(Node::new("xyz".to_string()));
    tree.insert(Node::new("é".to_string()));
    tree.update_subtree(1);
    assert_eq!(tree.weight(1), 4);
}

#[test]
fn insert_after_places_value_next_in_order() {
    let mut tree = Tree::new(Node::new("a".to_string()));
    let b = tree.insert(Node::new("b".to_string()));
    let c = tree.insert(Node::new("c".to_string()));
    assert_eq!(tree.values_in_order(), vec!["a", "b", "c"]);
    // after "a": the new value lands between "a" and "b"
    tree.insert_after(0, Node::new("x".to_string()));
    assert_eq!(tree.values_in_order(), vec!["a", "x", "b", "c"]);
    tree.insert_after(c, Node::new("y".to_string()));
    assert_eq!(tree.values_in_order(), vec!["a", "x", "b", "c", "y"]);
    tree.insert_after(b, Node::new("z".to_string()));
    assert_eq!(tree.values_in_order(), vec!["a", "x", "b", "z", "c", "y"]);
    assert_eq!(tree.weight(tree.root().unwrap()), 6);
}

#[test]
fn splay_keeps_order() {
    let mut tree = Tree::new(Node::new("p".to_string()));
    let mut last = 0usize;
    for s in ["q", "r", "s", "t", "u", "v"] {
        last = tree.insert_after(last, Node::new(s.to_string()));
    }
    let expected = vec!["p", "q", "r", "s", "t", "u", "v"];
    assert_eq!(tree.values_in_order(), expected);
    for i in [0usize, 6, 3, 1, 5, 2, 4, 4] {
        tree.splay(i);
        assert_eq!(tree.root(), Some(i));
        assert_eq!(tree.values_in_order(), expected);
        assert_eq!(tree.weight(i), 7);
    }
}
