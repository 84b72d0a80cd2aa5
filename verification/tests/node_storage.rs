use miden_mast::ids::{DecoratorId, MastNodeId};
use miden_mast::node_decorator_storage::NodeDecoratorStorage;

fn d(v: u32) -> DecoratorId {
    DecoratorId(v)
}

fn n(v: u32) -> MastNodeId {
    MastNodeId::new_unchecked(v)
}

#[test]
fn node_storage_starts_empty() {
    let s = NodeDecoratorStorage::new();
    assert_eq!(s.len(), 0);
    assert!(s.is_empty());
    assert_eq!(s.get_before_decorators(n(0)), &[]);
    assert_eq!(s.get_after_decorators(n(0)), &[]);
    let s = NodeDecoratorStorage::with_capacity(4, 8, 8);
    assert!(s.is_empty());
    let s = NodeDecoratorStorage::default();
    assert_eq!(s.len(), 0);
}

#[test]
fn node_storage_reads_back_what_was_added() {
    let mut s = NodeDecoratorStorage::new();
    s.add_node_decorators(n(0), &[d(1), d(2)], &[d(3)]);
    s.add_node_decorators(n(1), &[], &[d(4), d(5)]);
    assert_eq!(s.get_before_decorators(n(0)), &[d(1), d(2)]);
    assert_eq!(s.get_after_decorators(n(0)), &[d(3)]);
    assert_eq!(s.get_before_decorators(n(1)), &[]);
    assert_eq!(s.get_after_decorators(n(1)), &[d(4), d(5)]);
    assert_eq!(s.get_before_decorators(n(7)), &[]);
    assert_eq!(s.len(), 2);
    assert!(!s.is_empty());
    assert_eq!(s.node_indptr_for_before, vec![0, 2, 2]);
    assert_eq!(s.node_indptr_for_after, vec![0, 1, 3]);
}

#[test]
fn node_storage_skipped_nodes_are_empty() {
    let mut s = NodeDecoratorStorage::new();
    s.add_node_decorators(n(0), &[d(1)], &[]);
    s.add_node_decorators(n(3), &[d(9)], &[d(8)]);
    assert_eq!(s.get_before_decorators(n(0)), &[d(1)]);
    assert_eq!(s.get_before_decorators(n(1)), &[]);
    assert_eq!(s.get_before_decorators(n(2)), &[]);
    assert_eq!(s.get_before_decorators(n(3)), &[d(9)]);
    assert_eq!(s.get_after_decorators(n(3)), &[d(8)]);
    assert_eq!(s.len(), 4);
}

#[test]
fn node_storage_finalize_remove_and_clear() {
    let mut s = NodeDecoratorStorage::new();
    s.add_node_decorators(n(0), &[d(1)], &[d(2)]);
    let before = s.clone();
    s.remove_decorators(n(0));
    assert_eq!(s, before);
    s.finalize();
    assert_eq!(s.node_indptr_for_before, vec![0, 1]);
    assert_eq!(s.node_indptr_for_after, vec![0, 1]);
    assert_eq!(s.len(), 1);
    assert_eq!(s.get_before_decorators(n(0)), &[d(1)]);
    s.clear();
    assert!(s.is_empty());
    assert_eq!(s.get_before_decorators(n(0)), &[]);
    assert!(s.before_enter_decorators.is_empty());
}

#[test]
fn node_storage_adds_then_finalize_read_back() {
    let before = vec![vec![d(1)], vec![], vec![d(2), d(3)]];
    let after = vec![vec![], vec![d(4)], vec![d(5)]];
    let mut s = NodeDecoratorStorage::new();
    for i in 0..3 {
        s.add_node_decorators(n(i as u32), &before[i], &after[i]);
    }
    s.finalize();
    assert_eq!(s.len(), 3);
    assert_eq!(s.node_indptr_for_before, vec![0, 1, 1, 3]);
    assert_eq!(s.node_indptr_for_after, vec![0, 0, 1, 2]);
    for i in 0..3 {
        assert_eq!(s.get_before_decorators(n(i as u32)), before[i].as_slice());
        assert_eq!(s.get_after_decorators(n(i as u32)), after[i].as_slice());
    }
    assert_eq!(s.get_before_decorators(n(3)), &[]);

    let mut empty = NodeDecoratorStorage::new();
    empty.finalize();
    assert_eq!(empty.node_indptr_for_before, vec![0]);
    assert_eq!(empty.len(), 0);
}

/// Pointer lists of different lengths: the shorter one is padded up to the node.
#[test]
fn node_storage_add_with_shorter_after_pointers() {
    let mut s = NodeDecoratorStorage::new();
    s.node_indptr_for_before = vec![0, 0, 0];
    s.node_indptr_for_after = vec![0, 0];
    s.add_node_decorators(MastNodeId::new_unchecked(2), &[DecoratorId(1)], &[DecoratorId(2)]);
    assert_eq!(s.before_enter_decorators, vec![DecoratorId(1)]);
    assert_eq!(s.after_exit_decorators, vec![DecoratorId(2)]);
    assert_eq!(s.node_indptr_for_before, vec![0, 0, 0, 1]);
    assert_eq!(s.node_indptr_for_after, vec![0, 0, 0, 1]);
    assert_eq!(s.get_before_decorators(MastNodeId::new_unchecked(2)), &[DecoratorId(1)]);
    assert_eq!(s.get_after_decorators(MastNodeId::new_unchecked(2)), &[DecoratorId(2)]);
}
