use dsa::tree::{BinaryTreeNode, Traversal};
use dsa::DsaError;

fn sample_tree() -> BinaryTreeNode<u64> {
    let mut t = BinaryTreeNode::new();
    for v in [100u64, 20, 200, 10, 30, 150, 300] {
        t.insert(v);
    }
    t
}

#[test]
fn in_order_scenario() {
    let t = sample_tree();
    let values = t.traverse(Traversal::InOrder).unwrap();
    assert_eq!(values, vec![10u64, 20, 30, 100, 150, 200, 300]);
}

#[test]
fn pre_order_scenario() {
    let t = sample_tree();
    let values = t.traverse(Traversal::PreOrder).unwrap();
    assert_eq!(values, vec![100u64, 20, 10, 30, 200, 150, 300]);
}

#[test]
fn post_order_is_not_implemented() {
    let t = sample_tree();
    assert_eq!(t.traverse(Traversal::PostOrder), Err(DsaError::NotImplemented));
    let empty = BinaryTreeNode::<u64>::new();
    assert_eq!(empty.traverse(Traversal::PostOrder), Err(DsaError::NotImplemented));
}

#[test]
fn empty_tree_traversals_yield_nothing() {
    let t = BinaryTreeNode::<u64>::new();
    assert_eq!(t.traverse(Traversal::InOrder).unwrap(), Vec::<u64>::new());
    assert_eq!(t.traverse(Traversal::PreOrder).unwrap(), Vec::<u64>::new());
}

#[test]
fn search_finds_every_inserted_value() {
    let t = sample_tree();
    for v in [100u64, 20, 200, 10, 30, 150, 300] {
        assert!(t.search(v));
    }
}

#[test]
fn search_misses_values_never_inserted() {
    let t = sample_tree();
    assert!(!t.search(89));
    assert!(!t.search(0));
    assert!(!t.search(5));
    assert!(!t.search(1000));
    assert!(!t.search(101));
}

#[test]
fn search_on_empty_tree_reports_not_found() {
    let t = BinaryTreeNode::<u64>::new();
    assert!(!t.search(1));
}

#[test]
fn first_insert_fills_the_root() {
    let mut t = BinaryTreeNode::new();
    t.insert(42u64);
    assert_eq!(t.data, Some(42));
    assert!(t.left.is_none());
    assert!(t.right.is_none());
}

#[test]
fn duplicates_go_right() {
    let mut t = BinaryTreeNode::new();
    t.insert(5u64);
    t.insert(5u64);
    assert_eq!(t.traverse(Traversal::InOrder).unwrap(), vec![5u64, 5]);
    assert!(t.left.is_none());
    assert!(t.right.is_some());
    assert!(t.search(5));
}

#[test]
fn in_order_is_sorted_for_descending_inserts() {
    let mut t = BinaryTreeNode::new();
    for v in [9u64, 8, 7, 6, 5, 4, 3, 2, 1] {
        t.insert(v);
    }
    assert_eq!(
        t.traverse(Traversal::InOrder).unwrap(),
        vec![1u64, 2, 3, 4, 5, 6, 7, 8, 9]
    );
}

#[test]
fn signed_values_order_correctly() {
    let mut t = BinaryTreeNode::new();
    for v in [0i64, -5, 7, -2, 3] {
        t.insert(v);
    }
    assert_eq!(
        t.traverse(Traversal::InOrder).unwrap(),
        vec![-5i64, -2, 0, 3, 7]
    );
    assert!(t.search(-5));
    assert!(!t.search(-4));
}
