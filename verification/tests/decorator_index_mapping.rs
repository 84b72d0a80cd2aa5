use miden_mast::debuginfo::{DecoratedLinks, DecoratorIndexError, DecoratorIndexMapping};
use miden_mast::ids::{DecoratorId, MastNodeId};

fn test_decorator_id(value: u32) -> DecoratorId {
    DecoratorId(value)
}

fn test_node_id(value: u32) -> MastNodeId {
    MastNodeId::new_unchecked(value)
}

fn collect_links(links: DecoratedLinks<'_>) -> Vec<(usize, DecoratorId)> {
    let mut it = links.into_iter();
    let mut out = Vec::new();
    while let Some(link) = it.next() {
        out.push(link);
    }
    out
}

/// Node 0: Op 0 -> [0, 1], Op 1 -> [2]; Node 1: Op 0 -> [3, 4, 5]
fn create_standard_test_storage() -> DecoratorIndexMapping {
    let decorator_ids = vec![
        test_decorator_id(0),
        test_decorator_id(1),
        test_decorator_id(2),
        test_decorator_id(3),
        test_decorator_id(4),
        test_decorator_id(5),
    ];
    let op_indptr_for_dec_ids = vec![0, 2, 3, 6];
    let mut node_indptr_for_op_idx = Vec::new();
    node_indptr_for_op_idx.push(0);
    node_indptr_for_op_idx.push(2);
    node_indptr_for_op_idx.push(3);

    DecoratorIndexMapping::from_components(
        decorator_ids,
        op_indptr_for_dec_ids,
        node_indptr_for_op_idx,
    )
    .unwrap()
}

#[test]
fn decorator_index_mapping_test_constructors() {
    let storage = DecoratorIndexMapping::new();
    assert_eq!(storage.num_nodes(), 0);
    assert_eq!(storage.num_decorator_ids(), 0);

    let storage = DecoratorIndexMapping::with_capacity(10, 20, 30);
    assert_eq!(storage.num_nodes(), 0);
    assert_eq!(storage.num_decorator_ids(), 0);

    let storage = DecoratorIndexMapping::default();
    assert_eq!(storage.num_nodes(), 0);
    assert_eq!(storage.num_decorator_ids(), 0);
}

#[test]
fn decorator_index_mapping_test_from_components_simple() {
    let storage = create_standard_test_storage();

    assert_eq!(storage.num_nodes(), 2);
    assert_eq!(storage.num_decorator_ids(), 6);
}

#[test]
fn decorator_index_mapping_test_from_components_invalid_structure() {
    let result = DecoratorIndexMapping::from_components(vec![], vec![], Vec::new());
    assert_eq!(result, Err(DecoratorIndexError::InternalStructure));

    let result = DecoratorIndexMapping::from_components(
        vec![test_decorator_id(0)],
        vec![0, 2],
        Vec::new(),
    );
    assert_eq!(result, Err(DecoratorIndexError::InternalStructure));

    let result = DecoratorIndexMapping::from_components(
        vec![test_decorator_id(0), test_decorator_id(1)],
        vec![0, 2, 1],
        Vec::new(),
    );
    assert_eq!(result, Err(DecoratorIndexError::InternalStructure));
}

#[test]
fn decorator_index_mapping_test_data_access_methods() {
    let storage = create_standard_test_storage();

    let decorators = storage.decorator_ids_for_operation(test_node_id(0), 0).unwrap();
    assert_eq!(decorators, &[test_decorator_id(0), test_decorator_id(1)]);

    let decorators = storage.decorator_ids_for_operation(test_node_id(0), 1).unwrap();
    assert_eq!(decorators, &[test_decorator_id(2)]);

    let decorators = storage.decorator_ids_for_operation(test_node_id(1), 0).unwrap();
    assert_eq!(decorators, &[test_decorator_id(3), test_decorator_id(4), test_decorator_id(5)]);

    let decorators: Vec<_> = storage.decorator_ids_for_node(test_node_id(0)).unwrap();
    assert_eq!(decorators.len(), 2);
    assert_eq!(decorators[0], (0, &[test_decorator_id(0), test_decorator_id(1)][..]));
    assert_eq!(decorators[1], (1, &[test_decorator_id(2)][..]));

    let decorators: Vec<_> = storage.decorator_ids_for_node(test_node_id(1)).unwrap();
    assert_eq!(decorators.len(), 1);
    assert_eq!(
        decorators[0],
        (0, &[test_decorator_id(3), test_decorator_id(4), test_decorator_id(5)][..])
    );

    assert!(storage.operation_has_decorator_ids(test_node_id(0), 0).unwrap());
    assert!(storage.operation_has_decorator_ids(test_node_id(0), 1).unwrap());
    assert!(storage.operation_has_decorator_ids(test_node_id(1), 0).unwrap());
    assert!(!storage.operation_has_decorator_ids(test_node_id(0), 2).unwrap());

    assert_eq!(storage.num_decorator_ids_for_operation(test_node_id(0), 0).unwrap(), 2);
    assert_eq!(storage.num_decorator_ids_for_operation(test_node_id(0), 1).unwrap(), 1);
    assert_eq!(storage.num_decorator_ids_for_operation(test_node_id(1), 0).unwrap(), 3);
    assert_eq!(storage.num_decorator_ids_for_operation(test_node_id(0), 2).unwrap(), 0);

    let decorators = storage.decorator_ids_for_operation(test_node_id(0), 2).unwrap();
    assert_eq!(decorators, &[]);
}

#[test]
fn test_empty_nodes_basic_functionality() {
    {
        let decorator_indices = vec![];
        let op_indptr_for_dec_idx = vec![0, 0, 0];
        let mut node_indptr_for_op_idx = Vec::new();
        node_indptr_for_op_idx.push(0);
        node_indptr_for_op_idx.push(2);

        let storage = DecoratorIndexMapping::from_components(
            decorator_indices,
            op_indptr_for_dec_idx,
            node_indptr_for_op_idx,
        )
        .unwrap();

        assert_eq!(storage.num_nodes(), 1);
        assert_eq!(storage.num_decorator_ids(), 0);

        let decorators = storage.decorator_ids_for_operation(test_node_id(0), 0).unwrap();
        assert_eq!(decorators, &[]);

        assert!(!storage.operation_has_decorator_ids(test_node_id(0), 0).unwrap());
    }

    {
        let mut storage = DecoratorIndexMapping::new();

        storage.add_decorator_info_for_node(test_node_id(0), vec![]).unwrap();

        let range = storage.operation_range_for_node(test_node_id(0));
        assert!(range.is_ok(), "operation_range_for_node should return Ok for empty node");
        let range = range.unwrap();
        assert_eq!(range, 0..0, "Empty node should have empty operations range");

        let result = storage.decorator_ids_for_node(test_node_id(0));
        assert!(result.is_ok(), "decorator_ids_for_node should return Ok for empty node");
        let decorators: Vec<_> = result.unwrap();
        assert_eq!(decorators, Vec::<(usize, &[DecoratorId])>::new());

        let result = storage.decorator_links_for_node(test_node_id(0));
        assert!(result.is_ok(), "decorator_links_for_node should return Ok for empty node");
        let links: Vec<_> = collect_links(result.unwrap());
        assert_eq!(links, Vec::<(usize, DecoratorId)>::new());

        assert_eq!(storage.num_nodes(), 1);
        assert_eq!(storage.num_decorator_ids(), 0);
    }
}

#[test]
fn decorator_index_mapping_test_debug_impl() {
    let storage = DecoratorIndexMapping::new();
    let debug_str = format!("{:?}", storage);
    assert!(debug_str.contains("DecoratorIndexMapping"));
}

#[test]
fn decorator_index_mapping_test_clone_and_equality() {
    let decorator_indices = vec![
        test_decorator_id(0),
        test_decorator_id(1),
        test_decorator_id(2),
        test_decorator_id(3),
        test_decorator_id(4),
        test_decorator_id(5),
    ];
    let op_indptr_for_dec_idx = vec![0, 2, 3, 6];
    let mut node_indptr_for_op_idx = Vec::new();
    node_indptr_for_op_idx.push(0);
    node_indptr_for_op_idx.push(2);
    node_indptr_for_op_idx.push(3);

    let storage1 = DecoratorIndexMapping::from_components(
        decorator_indices.clone(),
        op_indptr_for_dec_idx.clone(),
        node_indptr_for_op_idx.clone(),
    )
    .unwrap();

    let storage2 = storage1.clone();
    assert_eq!(storage1, storage2);

    let different_decorators = vec![test_decorator_id(10)];
    let mut different_node_indptr = Vec::new();
    different_node_indptr.push(0);
    different_node_indptr.push(1);

    let storage3 = DecoratorIndexMapping::from_components(
        different_decorators,
        vec![0, 1],
        different_node_indptr,
    )
    .unwrap();

    assert_ne!(storage1, storage3);
}

#[test]
fn decorator_index_mapping_test_add_decorator_info_functionality() {
    let mut storage = DecoratorIndexMapping::new();

    let decorators_info = vec![
        (0, test_decorator_id(10)),
        (0, test_decorator_id(11)),
        (2, test_decorator_id(12)),
    ];
    storage.add_decorator_info_for_node(test_node_id(0), decorators_info).unwrap();

    assert_eq!(storage.num_nodes(), 1);
    assert_eq!(storage.num_decorator_ids_for_operation(test_node_id(0), 0).unwrap(), 2);
    assert_eq!(storage.num_decorator_ids_for_operation(test_node_id(0), 2).unwrap(), 1);

    storage
        .add_decorator_info_for_node(test_node_id(1), vec![(0, test_decorator_id(20))])
        .unwrap();
    assert_eq!(storage.num_nodes(), 2);

    let node1_op0 = storage.decorator_ids_for_operation(test_node_id(1), 0).unwrap();
    assert_eq!(node1_op0, &[test_decorator_id(20)]);

    let mut storage2 = DecoratorIndexMapping::new();
    storage2
        .add_decorator_info_for_node(test_node_id(0), vec![(0, test_decorator_id(10))])
        .unwrap();

    storage2
        .add_decorator_info_for_node(test_node_id(1), vec![(0, test_decorator_id(30))])
        .unwrap();
    assert_eq!(storage2.num_nodes(), 2);

    let result =
        storage2.add_decorator_info_for_node(test_node_id(0), vec![(0, test_decorator_id(40))]);
    assert_eq!(result, Err(DecoratorIndexError::NodeIndex(test_node_id(0))));

    let mut storage3 = DecoratorIndexMapping::new();
    let result = storage3.add_decorator_info_for_node(test_node_id(0), vec![]);
    assert_eq!(result, Ok(()));
    assert_eq!(storage3.num_nodes(), 1);

    let decorators = storage3.decorator_ids_for_operation(test_node_id(0), 0).unwrap();
    assert_eq!(decorators, &[]);

    storage3
        .add_decorator_info_for_node(test_node_id(1), vec![(0, test_decorator_id(100))])
        .unwrap();
    assert_eq!(storage3.num_nodes(), 2);

    let mut storage4 = DecoratorIndexMapping::new();
    let gap_decorators = vec![
        (0, test_decorator_id(10)),
        (0, test_decorator_id(11)),
        (3, test_decorator_id(12)),
        (4, test_decorator_id(13)),
    ];
    storage4.add_decorator_info_for_node(test_node_id(0), gap_decorators).unwrap();

    assert_eq!(storage4.num_decorator_ids_for_operation(test_node_id(0), 0).unwrap(), 2);
    assert_eq!(storage4.num_decorator_ids_for_operation(test_node_id(0), 1).unwrap(), 0);
    assert_eq!(storage4.num_decorator_ids_for_operation(test_node_id(0), 2).unwrap(), 0);
    assert_eq!(storage4.num_decorator_ids_for_operation(test_node_id(0), 3).unwrap(), 1);
    assert_eq!(storage4.num_decorator_ids_for_operation(test_node_id(0), 4).unwrap(), 1);

    let op1_decorators = storage4.decorator_ids_for_operation(test_node_id(0), 1).unwrap();
    assert_eq!(op1_decorators, &[]);

    let mut storage5 = DecoratorIndexMapping::new();

    storage5
        .add_decorator_info_for_node(
            test_node_id(0),
            vec![(0, test_decorator_id(1)), (1, test_decorator_id(0))],
        )
        .unwrap();

    storage5.add_decorator_info_for_node(test_node_id(1), vec![]).unwrap();

    storage5
        .add_decorator_info_for_node(
            test_node_id(2),
            vec![(1, test_decorator_id(1)), (2, test_decorator_id(2))],
        )
        .unwrap();

    assert_eq!(storage5.num_nodes(), 3);

    assert_eq!(
        storage5.decorator_ids_for_operation(test_node_id(0), 0).unwrap(),
        &[test_decorator_id(1)]
    );
    assert_eq!(
        storage5.decorator_ids_for_operation(test_node_id(0), 1).unwrap(),
        &[test_decorator_id(0)]
    );

    assert_eq!(storage5.decorator_ids_for_operation(test_node_id(1), 0).unwrap(), &[]);

    assert_eq!(storage5.decorator_ids_for_operation(test_node_id(2), 0).unwrap(), &[]);
    assert_eq!(
        storage5.decorator_ids_for_operation(test_node_id(2), 1).unwrap(),
        &[test_decorator_id(1)]
    );
    assert_eq!(
        storage5.decorator_ids_for_operation(test_node_id(2), 2).unwrap(),
        &[test_decorator_id(2)]
    );
}

#[test]
fn test_empty_nodes_edge_cases() {
    let mut storage = DecoratorIndexMapping::new();

    storage
        .add_decorator_info_for_node(
            test_node_id(0),
            vec![(0, test_decorator_id(10)), (2, test_decorator_id(20))],
        )
        .unwrap();

    storage
        .add_decorator_info_for_node(
            test_node_id(1),
            vec![
                (0, test_decorator_id(30)),
                (0, test_decorator_id(31)),
                (3, test_decorator_id(32)),
            ],
        )
        .unwrap();

    storage.add_decorator_info_for_node(test_node_id(2), vec![]).unwrap();

    let range0 = storage.operation_range_for_node(test_node_id(0)).unwrap();
    let range1 = storage.operation_range_for_node(test_node_id(1)).unwrap();
    let range2 = storage.operation_range_for_node(test_node_id(2)).unwrap();

    assert!(range0.end > range0.start, "Node with decorators should have non-empty range");
    assert!(range1.end > range1.start, "Node with decorators should have non-empty range");

    let op_indptr_len = storage.num_op_pointers();
    assert_eq!(range2.start, op_indptr_len, "Empty node should point to end of op_indptr array");
    assert_eq!(range2.end, op_indptr_len, "Empty node should have empty range at array end");

    let result = storage.decorator_ids_for_node(test_node_id(2));
    assert!(result.is_ok(), "decorator_ids_for_node should work for node with no decorators");
    let decorators: Vec<_> = result.unwrap();
    assert_eq!(decorators, Vec::<(usize, &[DecoratorId])>::new());

    let result = storage.decorator_links_for_node(test_node_id(2));
    assert!(result.is_ok(), "decorator_links_for_node should return Ok for empty node");

    let links = result.unwrap();
    let collected: Vec<_> = collect_links(links);
    assert_eq!(collected, Vec::<(usize, DecoratorId)>::new());

    let result2 = storage.decorator_links_for_node(test_node_id(2));
    assert!(result2.is_ok(), "decorator_links_for_node should work repeatedly for empty node");
    let links2 = result2.unwrap();
    let collected2: Vec<_> = collect_links(links2);
    assert_eq!(collected2, Vec::<(usize, DecoratorId)>::new());

    let result3 = storage.decorator_ids_for_node(test_node_id(2));
    assert!(result3.is_ok(), "decorator_ids_for_node should work repeatedly for empty node");
    let decorators2: Vec<_> = result3.unwrap();
    assert_eq!(decorators2, Vec::<(usize, &[DecoratorId])>::new());
}

#[test]
fn test_decorator_links_for_node_flattened() {
    let storage = create_standard_test_storage();
    let n0 = MastNodeId::new_unchecked(0);
    let flat: Vec<_> = collect_links(storage.decorator_links_for_node(n0).unwrap());
    assert_eq!(flat, vec![(0, DecoratorId(0)), (0, DecoratorId(1)), (1, DecoratorId(2)),]);

    let n1 = MastNodeId::new_unchecked(1);
    let flat1: Vec<_> = collect_links(storage.decorator_links_for_node(n1).unwrap());
    assert_eq!(flat1, vec![(0, DecoratorId(3)), (0, DecoratorId(4)), (0, DecoratorId(5)),]);
}

#[test]
fn decorated_links_count_and_length() {
    let storage = create_standard_test_storage();
    let links = storage.decorator_links_for_node(test_node_id(0)).unwrap();
    assert_eq!(links.len_pairs(), 3);
    assert!(!links.is_empty());
    let mut it = links.into_iter();
    assert_eq!(it.len(), 3);
    assert_eq!(it.next(), Some((0, test_decorator_id(0))));
    assert_eq!(it.len(), 2);
    assert_eq!(it.next(), Some((0, test_decorator_id(1))));
    assert_eq!(it.next(), Some((1, test_decorator_id(2))));
    assert_eq!(it.len(), 0);
    assert_eq!(it.next(), None);
}

#[test]
fn gaps_before_a_node_become_empty_nodes() {
    let mut storage = DecoratorIndexMapping::new();
    storage
        .add_decorator_info_for_node(test_node_id(2), vec![(1, test_decorator_id(7))])
        .unwrap();
    assert_eq!(storage.num_nodes(), 3);
    assert_eq!(storage.decorator_ids_for_operation(test_node_id(0), 0).unwrap(), &[]);
    assert_eq!(storage.decorator_ids_for_operation(test_node_id(1), 0).unwrap(), &[]);
    assert_eq!(storage.decorator_ids_for_operation(test_node_id(2), 0).unwrap(), &[]);
    assert_eq!(
        storage.decorator_ids_for_operation(test_node_id(2), 1).unwrap(),
        &[test_decorator_id(7)]
    );
    let links = collect_links(storage.decorator_links_for_node(test_node_id(2)).unwrap());
    assert_eq!(links, vec![(1, test_decorator_id(7))]);
}

#[test]
fn unknown_nodes_are_refused() {
    let storage = create_standard_test_storage();
    assert_eq!(
        storage.decorator_ids_for_operation(test_node_id(2), 0),
        Err(DecoratorIndexError::NodeIndex(test_node_id(2)))
    );
    assert!(storage.decorator_links_for_node(test_node_id(5)).is_err());
    assert!(storage.operation_range_for_node(test_node_id(2)).is_err());
    assert_eq!(
        DecoratorIndexError::InternalStructure.message(),
        "Invalid internal data structure in DecoratorIndexMapping"
    );
    assert!(DecoratorIndexMapping::new().is_empty());
    assert!(!storage.is_empty());
}

#[test]
fn appending_an_empty_node_keeps_earlier_reads_and_counts() {
    let mut storage = DecoratorIndexMapping::new();
    storage
        .add_decorator_info_for_node(test_node_id(0), vec![(0, test_decorator_id(1))])
        .unwrap();
    assert_eq!(storage.decorator_ids_for_operation(test_node_id(0), 1).unwrap(), &[]);
    storage.add_decorator_info_for_node(test_node_id(1), vec![]).unwrap();
    assert_eq!(storage.decorator_ids_for_operation(test_node_id(0), 1).unwrap(), &[]);
    assert_eq!(
        storage.decorator_ids_for_operation(test_node_id(0), 0).unwrap(),
        &[test_decorator_id(1)]
    );
    let links = storage.decorator_links_for_node(test_node_id(0)).unwrap();
    assert_eq!(links.len_pairs(), 1);
    let it = links.into_iter();
    assert_eq!(it.len(), 1);
    let collected = collect_links(storage.decorator_links_for_node(test_node_id(0)).unwrap());
    assert_eq!(collected, vec![(0, test_decorator_id(1))]);
    let listing = storage.decorator_ids_for_node(test_node_id(0)).unwrap();
    let flat: Vec<_> =
        listing.iter().flat_map(|(op, ids)| ids.iter().map(move |d| (*op, *d))).collect();
    assert_eq!(flat, collected);
    let empty = storage.decorator_links_for_node(test_node_id(1)).unwrap();
    assert_eq!(empty.len_pairs(), 0);
    assert!(empty.is_empty());
}
