use bintree::{Node, Tree};

fn demo_tree() -> (Tree<i64>, usize) {
    let mut tree = Tree::new();
    let mut added: usize = 0;
    for k in [5, 3, 65, 123, 6, 11, 3, 1, 5, 42] {
        if tree.insert(k, k) {
            added += 1;
        }
    }
    (tree, added)
}

#[test]
fn demo_sequence_keeps_eight_nodes() {
    let (tree, added) = demo_tree();
    assert_eq!(added, 8);
    for k in [5, 3, 65, 123, 6, 11, 1, 42] {
        let n = tree.find(k).unwrap();
        assert_eq!(n.key, k);
        assert_eq!(n.value, k);
    }
}

#[test]
fn demo_detach_six() {
    let (mut tree, _) = demo_tree();
    assert_eq!(tree.find(6).unwrap().value, 6);
    let sub = tree.detach(6).unwrap();
    assert_eq!(sub.key, 6);
    assert_eq!(sub.parent, Some(65));
    assert!(tree.find(6).is_none());
    // 11 and 42 were inserted below 6, so they leave with its subtree.
    assert!(tree.find(11).is_none());
    assert!(tree.find(42).is_none());
    assert_eq!(sub.right.as_ref().unwrap().key, 11);
    assert_eq!(sub.right.as_ref().unwrap().value, 11);
    for k in [5, 3, 65, 123, 1] {
        assert_eq!(tree.find(k).unwrap().value, k);
    }
}

#[test]
fn demo_shape() {
    let (tree, _) = demo_tree();
    let root = tree.find(5).unwrap();
    assert_eq!(root.parent, None);
    assert_eq!(root.left.as_ref().unwrap().key, 3);
    assert_eq!(root.right.as_ref().unwrap().key, 65);
    let n65 = tree.find(65).unwrap();
    assert_eq!(n65.left.as_ref().unwrap().key, 6);
    assert_eq!(n65.right.as_ref().unwrap().key, 123);
    assert_eq!(tree.find(6).unwrap().parent, Some(65));
    assert_eq!(tree.find(42).unwrap().parent, Some(11));
    assert_eq!(tree.find(1).unwrap().parent, Some(3));
}

#[test]
fn empty_tree_finds_and_detaches_nothing() {
    let mut tree: Tree<u8> = Tree::new();
    assert!(tree.find(0).is_none());
    assert!(tree.detach(0).is_none());
    assert!(tree.find(0).is_none());
}

#[test]
fn duplicate_insert_is_refused() {
    let mut tree = Tree::new();
    assert!(tree.insert(10, "a"));
    assert!(tree.insert(4, "b"));
    assert!(!tree.insert(10, "c"));
    assert!(!tree.insert(4, "d"));
    assert_eq!(tree.find(10).unwrap().value, "a");
    assert_eq!(tree.find(4).unwrap().value, "b");
    assert!(tree.find(10).unwrap().right.is_none());
}

#[test]
fn inserted_values_are_found() {
    let mut tree = Tree::new();
    let keys = [i64::MIN, 0, i64::MAX, -7, 7, 100];
    for (i, k) in keys.iter().enumerate() {
        assert!(tree.insert(*k, i));
    }
    for (i, k) in keys.iter().enumerate() {
        assert_eq!(tree.find(*k).unwrap().value, i);
    }
    assert!(tree.find(1).is_none());
}

#[test]
fn ordering_holds_at_every_node() {
    fn check(n: &Node<i64>) {
        if let Some(l) = &n.left {
            assert!(l.key < n.key);
            assert_eq!(l.parent, Some(n.key));
            check(l);
        }
        if let Some(r) = &n.right {
            assert!(r.key > n.key);
            assert_eq!(r.parent, Some(n.key));
            check(r);
        }
    }
    let (tree, _) = demo_tree();
    check(tree.find(5).unwrap());
}

#[test]
fn detach_removes_whole_subtree() {
    let (mut tree, _) = demo_tree();
    let sub = tree.detach(65).unwrap();
    assert_eq!(sub.key, 65);
    for k in [65, 6, 11, 42, 123] {
        assert!(tree.find(k).is_none());
    }
    for k in [5, 3, 1] {
        assert_eq!(tree.find(k).unwrap().value, k);
    }
    assert!(tree.find(5).unwrap().right.is_none());
}

#[test]
fn detach_absent_key_changes_nothing() {
    let (mut tree, _) = demo_tree();
    assert!(tree.detach(1000).is_none());
    assert!(tree.detach(4).is_none());
    for k in [5, 3, 65, 123, 6, 11, 1, 42] {
        assert_eq!(tree.find(k).unwrap().value, k);
    }
}

#[test]
fn detach_root_empties_tree() {
    let (mut tree, _) = demo_tree();
    let all = tree.detach(5).unwrap();
    assert_eq!(all.parent, None);
    assert!(tree.find(5).is_none());
    assert!(tree.find(42).is_none());
    assert!(tree.insert(42, 0));
    assert_eq!(tree.find(42).unwrap().parent, None);
}

#[test]
fn reinsert_after_detach() {
    let (mut tree, _) = demo_tree();
    assert!(tree.detach(6).is_some());
    assert!(tree.insert(6, 600));
    assert_eq!(tree.find(6).unwrap().value, 600);
    assert!(tree.find(11).is_none());
}

#[test]
fn constructors() {
    let r = Node::new_root(1, 'x');
    assert_eq!((r.key, r.value, r.parent), (1, 'x', None));
    assert!(r.left.is_none() && r.right.is_none());
    let l = Node::new_leaf(2, 'y', 1);
    assert_eq!((l.key, l.value, l.parent), (2, 'y', Some(1)));
    assert!(l.left.is_none() && l.right.is_none());
}
