use miden_mast::debuginfo::DecoratorIndexMapping;
use miden_mast::decorator_iter::{
    DecoratorOpLinkIterator, OperationOrDecorator, OperationOrDecoratorIterator, DecoratorStore, RawDecoratorOpLinkIterator, validate_decorators,
};
use miden_mast::ids::{DecoratorId, MastNodeId};
use miden_mast::op_padding::OpBatch;

fn d(v: u32) -> DecoratorId {
    DecoratorId(v)
}

fn drain(mut it: DecoratorOpLinkIterator<'_>) -> Vec<(usize, DecoratorId)> {
    let mut out = Vec::new();
    while let Some(x) = it.next() {
        out.push(x);
    }
    out
}

#[test]
fn op_link_iterator_runs_before_middle_after() {
    let before = [d(1)];
    let middle = vec![(0, d(2)), (3, d(3))];
    let after = [d(4), d(5)];
    let it = DecoratorOpLinkIterator::from_slice_iters(&before, &middle, &after, 7);
    assert_eq!(it.len(), 5);
    assert_eq!(drain(it), vec![(0, d(1)), (0, d(2)), (3, d(3)), (7, d(4)), (7, d(5))]);
}

#[test]
fn op_link_iterator_next_filtered_only_takes_matching_position() {
    let before: [DecoratorId; 0] = [];
    let middle = vec![(2, d(2))];
    let after = [d(9)];
    let mut it = DecoratorOpLinkIterator::from_slice_iters(&before, &middle, &after, 4);
    assert_eq!(it.next_filtered(0), None);
    assert_eq!(it.next_filtered(1), None);
    assert_eq!(it.next_filtered(2), Some((2, d(2))));
    assert_eq!(it.next_filtered(2), None);
    assert_eq!(it.next_filtered(4), Some((4, d(9))));
    assert_eq!(it.next(), None);
}

#[test]
fn op_link_iterator_over_forest_links() {
    let mut mapping = DecoratorIndexMapping::new();
    mapping
        .add_decorator_info_for_node(MastNodeId::new_unchecked(0), vec![(0, d(7)), (1, d(8))])
        .unwrap();
    let links = mapping.decorator_links_for_node(MastNodeId::new_unchecked(0)).unwrap();
    let before = [d(1)];
    let after = [d(2)];
    let it = DecoratorOpLinkIterator::from_linked(&before, links.into_iter(), &after, 2);
    assert_eq!(it.len(), 4);
    assert_eq!(drain(it), vec![(0, d(1)), (0, d(7)), (1, d(8)), (2, d(2))]);
}

#[test]
fn raw_iterator_removes_padding_from_positions() {
    // group 0: 3 operations; group 1: 1 operation then a padding
    let batches = vec![
        OpBatch {
            indptr: [0, 3, 5, 5, 5, 5, 5, 5, 5],
            padding: [false, true, false, false, false, false, false, false],
            num_groups: 2,
        },
        OpBatch {
            indptr: [0, 2, 2, 2, 2, 2, 2, 2, 2],
            padding: [false; 8],
            num_groups: 1,
        },
    ];
    let before = [d(1)];
    // padded positions: 3 is the raw op 3, 5 is the first op of the second batch (raw 4)
    let middle = vec![(3, d(2)), (5, d(3))];
    let after = [d(4)];
    let mut it = RawDecoratorOpLinkIterator::from_slice_iters(&before, &middle, &after, &batches);
    let mut out = Vec::new();
    while let Some(x) = it.next() {
        out.push(x);
    }
    assert_eq!(out, vec![(0, d(1)), (3, d(2)), (4, d(3)), (6, d(4))]);
}

#[test]
fn validate_decorators_accepts_valid_lists() {
    validate_decorators(0, &vec![]);
    validate_decorators(3, &vec![(0, d(1)), (0, d(2)), (3, d(3))]);
}

#[test]
fn decorator_store_defaults_to_owned_empty_list() {
    match DecoratorStore::default() {
        DecoratorStore::Owned(list) => assert!(list.is_empty()),
        DecoratorStore::Linked { .. } => panic!("expected an owned list"),
    }
}

#[test]
fn operations_and_decorators_come_in_execution_order() {
    let batches: Vec<Vec<u32>> = vec![vec![10, 20], vec![], vec![30]];
    let before = vec![DecoratorId(0)];
    let decorators = vec![(0usize, DecoratorId(1)), (1, DecoratorId(2)), (1, DecoratorId(5)), (3, DecoratorId(3))];
    let after = vec![DecoratorId(4)];
    let mut it = OperationOrDecoratorIterator::new(&batches, &before, &decorators, &after);
    let mut seen = Vec::new();
    while let Some(item) = it.next() {
        seen.push(match item {
            OperationOrDecorator::Operation(op) => format!("op{}", op),
            OperationOrDecorator::Decorator(d) => format!("d{}", d.0),
        });
    }
    assert_eq!(seen, vec!["d0", "d1", "op10", "d2", "d5", "op20", "op30", "d3", "d4"]);
    assert!(it.next().is_none());
}
