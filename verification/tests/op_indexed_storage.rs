use miden_mast::decorator_storage::{DecoratorStorageError, OpIndexedDecoratorStorage};
use miden_mast::ids::{DecoratorId, MastNodeId};

fn test_decorator_id(value: u32) -> DecoratorId {
    DecoratorId(value)
}

fn test_node_id(value: u32) -> MastNodeId {
    MastNodeId::new_unchecked(value)
}

/// Node 0: Op 0 -> [0, 1], Op 1 -> [2]; Node 1: Op 0 -> [3, 4, 5]
fn create_standard_test_storage() -> OpIndexedDecoratorStorage {
    let decorator_indices = vec![
        test_decorator_id(0),
        test_decorator_id(1),
        test_decorator_id(2),
        test_decorator_id(3),
        test_decorator_id(4),
        test_decorator_id(5),
    ];
    let op_indptr_for_dec_idx = vec![0, 2, 3, 6];
    let mut node_indptr_for_op_idx = Vec::new();
    node_indptr_for_op_idx.push(0);
    node_indptr_for_op_idx.push(2);
    node_indptr_for_op_idx.push(3);

    OpIndexedDecoratorStorage::from_components(
        decorator_indices,
        op_indptr_for_dec_idx,
        node_indptr_for_op_idx,
    )
    .unwrap()
}

#[test]
fn decorator_storage_test_constructors() {
    let storage = OpIndexedDecoratorStorage::new();
    assert_eq!(storage.num_nodes(), 0);
    assert_eq!(storage.num_decorators(), 0);

    let storage = OpIndexedDecoratorStorage::with_capacity(10, 20, 30);
    assert_eq!(storage.num_nodes(), 0);
    assert_eq!(storage.num_decorators(), 0);

    let storage = OpIndexedDecoratorStorage::default();
    assert_eq!(storage.num_nodes(), 0);
    assert_eq!(storage.num_decorators(), 0);
}

#[test]
fn decorator_storage_test_from_components_simple() {
    let storage = create_standard_test_storage();

    assert_eq!(storage.num_nodes(), 2);
    assert_eq!(storage.num_decorators(), 6);
}

#[test]
fn decorator_storage_test_from_components_invalid_structure() {
    let result = OpIndexedDecoratorStorage::from_components(vec![], vec![], Vec::new());
    assert_eq!(result, Err(DecoratorStorageError::InternalStructure));

    let result = OpIndexedDecoratorStorage::from_components(
        vec![test_decorator_id(0)],
        vec![0, 2],
        Vec::new(),
    );
    assert_eq!(result, Err(DecoratorStorageError::InternalStructure));

    let result = OpIndexedDecoratorStorage::from_components(
        vec![test_decorator_id(0), test_decorator_id(1)],
        vec![0, 2, 1],
        Vec::new(),
    );
    assert_eq!(result, Err(DecoratorStorageError::InternalStructure));
}

#[test]
fn decorator_storage_test_data_access_methods() {
    let storage = create_standard_test_storage();

    let decorators = storage.decorators_for_operation(test_node_id(0), 0).unwrap();
    assert_eq!(decorators, &[test_decorator_id(0), test_decorator_id(1)]);

    let decorators = storage.decorators_for_operation(test_node_id(0), 1).unwrap();
    assert_eq!(decorators, &[test_decorator_id(2)]);

    let decorators = storage.decorators_for_operation(test_node_id(1), 0).unwrap();
    assert_eq!(decorators, &[test_decorator_id(3), test_decorator_id(4), test_decorator_id(5)]);

    let decorators: Vec<_> = storage.decorators_for_node(test_node_id(0)).unwrap();
    assert_eq!(decorators.len(), 2);
    assert_eq!(decorators[0], (0, &[test_decorator_id(0), test_decorator_id(1)][..]));
    assert_eq!(decorators[1], (1, &[test_decorator_id(2)][..]));

    let decorators: Vec<_> = storage.decorators_for_node(test_node_id(1)).unwrap();
    assert_eq!(decorators.len(), 1);
    assert_eq!(
        decorators[0],
        (0, &[test_decorator_id(3), test_decorator_id(4), test_decorator_id(5)][..])
    );

    assert!(storage.operation_has_decorators(test_node_id(0), 0).unwrap());
    assert!(storage.operation_has_decorators(test_node_id(0), 1).unwrap());
    assert!(storage.operation_has_decorators(test_node_id(1), 0).unwrap());
    assert!(!storage.operation_has_decorators(test_node_id(0), 2).unwrap());

    assert_eq!(storage.num_decorators_for_operation(test_node_id(0), 0).unwrap(), 2);
    assert_eq!(storage.num_decorators_for_operation(test_node_id(0), 1).unwrap(), 1);
    assert_eq!(storage.num_decorators_for_operation(test_node_id(1), 0).unwrap(), 3);
    assert_eq!(storage.num_decorators_for_operation(test_node_id(0), 2).unwrap(), 0);

    let decorators = storage.decorators_for_operation(test_node_id(0), 2).unwrap();
    assert_eq!(decorators, &[]);
}

#[test]
fn test_empty_nodes_and_operations() {
    let decorator_indices = vec![];
    let op_indptr_for_dec_idx = vec![0, 0, 0];
    let mut node_indptr_for_op_idx = Vec::new();
    node_indptr_for_op_idx.push(0);
    node_indptr_for_op_idx.push(2);

    let storage = OpIndexedDecoratorStorage::from_components(
        decorator_indices,
        op_indptr_for_dec_idx,
        node_indptr_for_op_idx,
    )
    .unwrap();

    assert_eq!(storage.num_nodes(), 1);
    assert_eq!(storage.num_decorators(), 0);

    let decorators = storage.decorators_for_operation(test_node_id(0), 0).unwrap();
    assert_eq!(decorators, &[]);

    assert!(!storage.operation_has_decorators(test_node_id(0), 0).unwrap());
}

#[test]
fn decorator_storage_test_debug_impl() {
    let storage = OpIndexedDecoratorStorage::new();
    let debug_str = format!("{:?}", storage);
    assert!(debug_str.contains("DecoratorStorage"));
}

#[test]
fn decorator_storage_test_clone_and_equality() {
    let decorator_indices = vec![
        test_decorator_id(0),
        test_decorator_id(1),
        test_decorator_id(2),
        test_decorator_id(3),
        test_decorator_id(4),
        test_decorator_id(5),
    ];
    let op_indptr_for_dec_idx = vec![0, 2, 3, 6];
    let mut node_indptr_for_op_idx = Vec::new();
    node_indptr_for_op_idx.push(0);
    node_indptr_for_op_idx.push(2);
    node_indptr_for_op_idx.push(3);

    let storage1 = OpIndexedDecoratorStorage::from_components(
        decorator_indices.clone(),
        op_indptr_for_dec_idx.clone(),
        node_indptr_for_op_idx.clone(),
    )
    .unwrap();

    let storage2 = storage1.clone();
    assert_eq!(storage1, storage2);

    let different_decorators = vec![test_decorator_id(10)];
    let mut different_node_indptr = Vec::new();
    different_node_indptr.push(0);
    different_node_indptr.push(1);

    let storage3 = OpIndexedDecoratorStorage::from_components(
        different_decorators,
        vec![0, 1],
        different_node_indptr,
    )
    .unwrap();

    assert_ne!(storage1, storage3);
}

#[test]
fn decorator_storage_test_add_decorator_info_functionality() {
    let mut storage = OpIndexedDecoratorStorage::new();

    let decorators_info = vec![
        (0, test_decorator_id(10)),
        (0, test_decorator_id(11)),
        (2, test_decorator_id(12)),
    ];
    storage.add_decorator_info_for_node(test_node_id(0), decorators_info).unwrap();

    assert_eq!(storage.num_nodes(), 1);
    assert_eq!(storage.num_decorators_for_operation(test_node_id(0), 0).unwrap(), 2);
    assert_eq!(storage.num_decorators_for_operation(test_node_id(0), 2).unwrap(), 1);

    storage
        .add_decorator_info_for_node(test_node_id(1), vec![(0, test_decorator_id(20))])
        .unwrap();
    assert_eq!(storage.num_nodes(), 2);

    let node1_op0 = storage.decorators_for_operation(test_node_id(1), 0).unwrap();
    assert_eq!(node1_op0, &[test_decorator_id(20)]);

    let mut storage2 = OpIndexedDecoratorStorage::new();
    storage2
        .add_decorator_info_for_node(test_node_id(0), vec![(0, test_decorator_id(10))])
        .unwrap();

    storage2
        .add_decorator_info_for_node(test_node_id(1), vec![(0, test_decorator_id(30))])
        .unwrap();
    assert_eq!(storage2.num_nodes(), 2);

    let result =
        storage2.add_decorator_info_for_node(test_node_id(0), vec![(0, test_decorator_id(40))]);
    assert_eq!(result, Err(DecoratorStorageError::NodeIndex(test_node_id(0))));

    let mut storage3 = OpIndexedDecoratorStorage::new();
    let result = storage3.add_decorator_info_for_node(test_node_id(0), vec![]);
    assert_eq!(result, Ok(()));
    assert_eq!(storage3.num_nodes(), 1);

    let decorators = storage3.decorators_for_operation(test_node_id(0), 0).unwrap();
    assert_eq!(decorators, &[]);

    storage3
        .add_decorator_info_for_node(test_node_id(1), vec![(0, test_decorator_id(100))])
        .unwrap();
    assert_eq!(storage3.num_nodes(), 2);

    let mut storage4 = OpIndexedDecoratorStorage::new();
    let gap_decorators = vec![
        (0, test_decorator_id(10)),
        (0, test_decorator_id(11)),
        (3, test_decorator_id(12)),
        (4, test_decorator_id(13)),
    ];
    storage4.add_decorator_info_for_node(test_node_id(0), gap_decorators).unwrap();

    assert_eq!(storage4.num_decorators_for_operation(test_node_id(0), 0).unwrap(), 2);
    assert_eq!(storage4.num_decorators_for_operation(test_node_id(0), 1).unwrap(), 0);
    assert_eq!(storage4.num_decorators_for_operation(test_node_id(0), 2).unwrap(), 0);
    assert_eq!(storage4.num_decorators_for_operation(test_node_id(0), 3).unwrap(), 1);
    assert_eq!(storage4.num_decorators_for_operation(test_node_id(0), 4).unwrap(), 1);

    let op1_decorators = storage4.decorators_for_operation(test_node_id(0), 1).unwrap();
    assert_eq!(op1_decorators, &[]);

    let mut storage5 = OpIndexedDecoratorStorage::new();

    storage5
        .add_decorator_info_for_node(
            test_node_id(0),
            vec![(0, test_decorator_id(1)), (1, test_decorator_id(0))],
        )
        .unwrap();

    storage5.add_decorator_info_for_node(test_node_id(1), vec![]).unwrap();

    storage5
        .add_decorator_info_for_node(
            test_node_id(2),
            vec![(1, test_decorator_id(1)), (2, test_decorator_id(2))],
        )
        .unwrap();

    assert_eq!(storage5.num_nodes(), 3);

    assert_eq!(
        storage5.decorators_for_operation(test_node_id(0), 0).unwrap(),
        &[test_decorator_id(1)]
    );
    assert_eq!(
        storage5.decorators_for_operation(test_node_id(0), 1).unwrap(),
        &[test_decorator_id(0)]
    );

    assert_eq!(storage5.decorators_for_operation(test_node_id(1), 0).unwrap(), &[]);

    assert_eq!(storage5.decorators_for_operation(test_node_id(2), 0).unwrap(), &[]);
    assert_eq!(
        storage5.decorators_for_operation(test_node_id(2), 1).unwrap(),
        &[test_decorator_id(1)]
    );
    assert_eq!(
        storage5.decorators_for_operation(test_node_id(2), 2).unwrap(),
        &[test_decorator_id(2)]
    );
}

#[test]
fn storage_errors_and_messages() {
    let storage = create_standard_test_storage();
    assert_eq!(
        storage.decorators_for_operation(test_node_id(2), 0),
        Err(DecoratorStorageError::NodeIndex(test_node_id(2)))
    );
    assert!(storage.decorators_for_node(test_node_id(3)).is_err());
    assert_eq!(
        DecoratorStorageError::InternalStructure.message(),
        "Invalid internal data structure in DecoratorStorage"
    );
    let mut s = OpIndexedDecoratorStorage::new();
    assert_eq!(
        s.add_decorator_info_for_node(test_node_id(1), vec![]),
        Err(DecoratorStorageError::NodeIndex(test_node_id(1)))
    );
    assert_eq!(s.num_nodes(), 0);
}
