use std::collections::BTreeMap;

use miden_mast::call_node::CallNodeBuilder;
use miden_mast::external_node::ExternalNodeBuilder;
use miden_mast::ids::{DecoratorId, MastNodeId};
use miden_mast::join_node::JoinNodeBuilder;
use miden_mast::mast_forest::{MastForest, MastForestContributor, MastForestError, MastNodeBuilder};
use miden_mast::loop_node::LoopNodeBuilder;
use miden_mast::merger::{MergedForests, build_with_remapped_children};

fn n(v: u32) -> MastNodeId {
    MastNodeId::new_unchecked(v)
}

fn d(v: u32) -> DecoratorId {
    DecoratorId(v)
}

fn source_forest() -> MastForest {
    let mut forest = MastForest::new();
    ExternalNodeBuilder::new([1, 2, 3, 4]).add_to_forest(&mut forest).unwrap();
    ExternalNodeBuilder::new([5, 6, 7, 8]).add_to_forest(&mut forest).unwrap();
    JoinNodeBuilder::new([n(0), n(1)])
        .with_before_enter(vec![d(0)])
        .with_after_exit(vec![d(2), d(1)])
        .add_to_forest(&mut forest)
        .unwrap();
    forest
}

#[test]
fn remapped_join_moves_children_and_decorators() {
    let forest = source_forest();
    let node = forest.get_node_by_id(n(2)).unwrap();
    let mut node_map = BTreeMap::new();
    node_map.insert(0u32, n(1));
    node_map.insert(1u32, n(0));
    let mut decorator_map = BTreeMap::new();
    decorator_map.insert(0u32, d(10));
    decorator_map.insert(1u32, d(11));
    decorator_map.insert(2u32, d(12));
    let builder = build_with_remapped_children(node, &node_map, &decorator_map).unwrap();
    let mut target = MastForest::new();
    ExternalNodeBuilder::new([5, 6, 7, 8]).add_to_forest(&mut target).unwrap();
    ExternalNodeBuilder::new([1, 2, 3, 4]).add_to_forest(&mut target).unwrap();
    let built = builder.build(&target).unwrap();
    let join = built.unwrap_join();
    assert_eq!(join.first(), n(1));
    assert_eq!(join.second(), n(0));
    assert_eq!(join.before_enter(), &[d(10)]);
    assert_eq!(join.after_exit(), &[d(12), d(11)]);
    assert_eq!(join.digest(), forest.node_digest(n(2)));
}

#[test]
fn first_unmapped_decorator_is_reported() {
    let forest = source_forest();
    let node = forest.get_node_by_id(n(2)).unwrap();
    let node_map = BTreeMap::new();
    let mut decorator_map = BTreeMap::new();
    decorator_map.insert(0u32, d(10));
    let r = build_with_remapped_children(node, &node_map, &decorator_map);
    assert!(matches!(r, Err(MastForestError::DecoratorIdOverflow(id, 1)) if id == d(2)));
    let empty = BTreeMap::new();
    let r = build_with_remapped_children(node, &node_map, &empty);
    assert!(matches!(r, Err(MastForestError::DecoratorIdOverflow(id, 0)) if id == d(0)));
}

#[test]
fn remapped_external_and_call_keep_their_kind() {
    let mut forest = source_forest();
    CallNodeBuilder::new_syscall(n(0)).add_to_forest(&mut forest).unwrap();
    let node_map = {
        let mut m = BTreeMap::new();
        m.insert(0u32, n(0));
        m
    };
    let dmap = BTreeMap::new();
    let b = build_with_remapped_children(forest.get_node_by_id(n(3)).unwrap(), &node_map, &dmap)
        .unwrap();
    match b {
        MastNodeBuilder::Call(_) => {},
        _ => panic!("expected a call builder"),
    }
    let built = b.build(&forest).unwrap();
    assert!(built.unwrap_call().is_syscall());
    let b = build_with_remapped_children(forest.get_node_by_id(n(0)).unwrap(), &node_map, &dmap)
        .unwrap();
    assert_eq!(b.build(&forest).unwrap().digest(), [1, 2, 3, 4]);
}

const FOO: [u64; 4] = [1, 2, 3, 4];

/// Merges forests that have no advice map entries and no error codes.
fn merge_plain(
    forests: &[MastForest],
    decorators: &[Vec<[u8; 32]>],
    roots: Vec<Vec<MastNodeId>>,
) -> Result<MergedForests, MastForestError> {
    let advice: Vec<Vec<([u64; 4], Vec<u64>)>> = forests.iter().map(|_| Vec::new()).collect();
    let codes: Vec<Vec<(u64, String)>> = forests.iter().map(|_| Vec::new()).collect();
    MastForest::merge(forests, decorators, roots, &advice, &codes)
}
const BAR: [u64; 4] = [5, 6, 7, 8];

fn fp(b: u8) -> [u8; 32] {
    [b; 32]
}

/// [External(foo), Call(foo)] + [External(bar), Call(bar)] keeps all four nodes, with each
/// call pointing at its own callee in the merged forest.
#[test]
fn merge_forests_remaps_callees_and_roots() {
    let mut a = MastForest::new();
    let foo = ExternalNodeBuilder::new(FOO).add_to_forest(&mut a).unwrap();
    let call_a = CallNodeBuilder::new(foo).add_to_forest(&mut a).unwrap();
    let mut b = MastForest::new();
    let bar = ExternalNodeBuilder::new(BAR).add_to_forest(&mut b).unwrap();
    let call_b = CallNodeBuilder::new(bar).add_to_forest(&mut b).unwrap();
    let merged = merge_plain(&[a, b], &[vec![], vec![]], vec![vec![call_a], vec![call_b]]).unwrap();
    assert_eq!(merged.forest.num_nodes(), 4);
    assert_eq!(merged.forest.get_node_by_id(n(1)).unwrap().unwrap_call().callee(), n(0));
    assert_eq!(merged.forest.get_node_by_id(n(3)).unwrap().unwrap_call().callee(), n(2));
    assert_eq!(merged.forest.node_digest(n(2)), BAR);
    assert_eq!(merged.root_map.map_root(0, &call_a), Some(n(1)));
    assert_eq!(merged.root_map.map_root(1, &call_b), Some(n(3)));
    assert_eq!(merged.root_map.map_root(2, &call_b), None);
    assert_eq!(merged.roots, vec![n(1), n(3)]);
}

/// A forest merged with itself gives the forest back: nodes, decorators and roots are
/// deduplicated, and both root maps agree.
#[test]
fn merge_forests_removes_duplicates() {
    let build = || {
        let mut a = MastForest::new();
        let ext = ExternalNodeBuilder::new(BAR).add_to_forest(&mut a).unwrap();
        let foo = ExternalNodeBuilder::new(FOO).add_to_forest(&mut a).unwrap();
        let call =
            CallNodeBuilder::new(foo).with_before_enter(vec![d(1)]).add_to_forest(&mut a).unwrap();
        let lp = LoopNodeBuilder::new(ext).with_after_exit(vec![d(0)]).add_to_forest(&mut a).unwrap();
        (a, call, lp)
    };
    let (a, call, lp) = build();
    let (a2, _, _) = build();
    let decs = vec![fp(7), fp(9)];
    let merged = merge_plain(
        &[a, a2],
        &[decs.clone(), decs.clone()],
        vec![vec![call, lp], vec![call, lp]],
    )
    .unwrap();
    assert_eq!(merged.forest.num_nodes(), 4);
    assert_eq!(merged.decorator_fingerprints, decs);
    assert_eq!(merged.roots, vec![call, lp]);
    for root in [call, lp] {
        assert_eq!(merged.root_map.map_root(0, &root), merged.root_map.map_root(1, &root));
        assert_eq!(merged.root_map.map_root(0, &root), Some(root));
    }
    let merged_call = merged.forest.get_node_by_id(call).unwrap();
    assert_eq!(merged_call.before_enter(), &[d(1)]);
}

/// Roots that land on the same merged node are kept once.
#[test]
fn merge_forests_deduplicates_roots() {
    let mut a = MastForest::new();
    let foo_a = ExternalNodeBuilder::new(FOO).add_to_forest(&mut a).unwrap();
    let call_a = CallNodeBuilder::new(foo_a).add_to_forest(&mut a).unwrap();
    let mut b = MastForest::new();
    let foo_b = ExternalNodeBuilder::new(FOO).add_to_forest(&mut b).unwrap();
    let bar_b = ExternalNodeBuilder::new(BAR).add_to_forest(&mut b).unwrap();
    let call_b = CallNodeBuilder::new(foo_b).add_to_forest(&mut b).unwrap();
    let merged =
        merge_plain(&[a, b], &[vec![], vec![]], vec![vec![call_a], vec![bar_b, call_b]]).unwrap();
    assert_eq!(merged.forest.num_nodes(), 3);
    assert_eq!(merged.forest.node_digest(n(2)), BAR);
    assert_eq!(merged.roots, vec![n(1), n(2)]);
    assert_eq!(merged.root_map.map_root(0, &call_a), Some(n(1)));
    assert_eq!(merged.root_map.map_root(1, &bar_b), Some(n(2)));
    assert_eq!(merged.root_map.map_root(1, &call_b), Some(n(1)));
    assert_eq!(merged.root_map.map_root(1, &foo_b), None);
}

/// Decorators are merged by fingerprint, and nodes that differ only in their decorators stay
/// apart.
#[test]
fn merge_forests_merges_decorators() {
    let mut a = MastForest::new();
    let foo_a = ExternalNodeBuilder::new(FOO).add_to_forest(&mut a).unwrap();
    let loop_a = LoopNodeBuilder::new(foo_a)
        .with_before_enter(vec![d(0), d(2)])
        .add_to_forest(&mut a)
        .unwrap();
    let mut b = MastForest::new();
    let foo_b = ExternalNodeBuilder::new(FOO).add_to_forest(&mut b).unwrap();
    let loop_b = LoopNodeBuilder::new(foo_b)
        .with_before_enter(vec![d(0), d(2)])
        .add_to_forest(&mut b)
        .unwrap();
    let merged = merge_plain(
        &[a, b],
        &[vec![fp(0), fp(1), fp(2)], vec![fp(1), fp(2), fp(3)]],
        vec![vec![loop_a], vec![loop_b]],
    )
    .unwrap();
    assert_eq!(merged.decorator_fingerprints, vec![fp(0), fp(1), fp(2), fp(3)]);
    assert_eq!(merged.forest.num_nodes(), 3);
    assert_eq!(merged.forest.get_node_by_id(n(1)).unwrap().before_enter(), &[d(0), d(2)]);
    assert_eq!(merged.forest.get_node_by_id(n(2)).unwrap().before_enter(), &[d(1), d(3)]);
    assert_eq!(merged.root_map.map_root(1, &loop_b), Some(n(2)));
    assert_eq!(merged.roots, vec![n(1), n(2)]);
}

/// A node naming a decorator its forest does not have makes the merge fail.
#[test]
fn mast_forest_merge_invalid_decorator_index() {
    let mut a = MastForest::new();
    let bar = ExternalNodeBuilder::new(BAR).add_to_forest(&mut a).unwrap();
    let mut b = MastForest::new();
    let foo = ExternalNodeBuilder::new(FOO)
        .with_before_enter(vec![d(0), d(1)])
        .add_to_forest(&mut b)
        .unwrap();
    let r = merge_plain(&[a, b], &[vec![fp(1), fp(2)], vec![]], vec![vec![bar], vec![foo]]);
    assert!(matches!(r, Err(MastForestError::DecoratorIdOverflow(id, 0)) if id == d(0)));
}

/// An external node whose digest is that of a loop in another forest is replaced by the loop:
/// it is not added, and its id goes to the loop's new id, whichever forest comes first.
#[test]
fn merge_replaces_external_node_by_real_node() {
    let build_b = || {
        let mut b = MastForest::new();
        let ext = ExternalNodeBuilder::new(BAR).add_to_forest(&mut b).unwrap();
        let lp = LoopNodeBuilder::new(ext).add_to_forest(&mut b).unwrap();
        (b, lp)
    };
    let (b, lp) = build_b();
    let loop_digest = b.node_digest(lp);
    let mut a = MastForest::new();
    let ext_a = ExternalNodeBuilder::new(loop_digest).add_to_forest(&mut a).unwrap();
    let merged = merge_plain(&[a, b], &[vec![], vec![]], vec![vec![ext_a], vec![lp]]).unwrap();
    assert_eq!(merged.forest.num_nodes(), 2);
    assert_eq!(merged.forest.node_digest(n(0)), BAR);
    assert!(merged.forest.get_node_by_id(n(0)).unwrap().is_external());
    assert!(!merged.forest.get_node_by_id(n(1)).unwrap().is_external());
    assert_eq!(merged.forest.node_digest(n(1)), loop_digest);
    assert_eq!(merged.root_map.map_root(0, &ext_a), Some(n(1)));
    assert_eq!(merged.root_map.map_root(1, &lp), Some(n(1)));
    assert_eq!(merged.roots, vec![n(1)]);

    let (b, lp) = build_b();
    let mut a = MastForest::new();
    let ext_a = ExternalNodeBuilder::new(loop_digest).add_to_forest(&mut a).unwrap();
    let merged = merge_plain(&[b, a], &[vec![], vec![]], vec![vec![lp], vec![ext_a]]).unwrap();
    assert_eq!(merged.forest.num_nodes(), 2);
    assert_eq!(merged.root_map.map_root(1, &ext_a), Some(n(1)));
    assert_eq!(merged.root_map.map_root(0, &lp), Some(n(1)));
}

/// Replacements that depend on each other across forests are resolved: each external node
/// waits for the node that replaces it, and callers wait for their callees.
#[test]
fn merge_resolves_external_dependencies() {
    let mut b = MastForest::new();
    let ext_x = ExternalNodeBuilder::new(BAR).add_to_forest(&mut b).unwrap();
    let lp = LoopNodeBuilder::new(ext_x).add_to_forest(&mut b).unwrap();
    let q = b.node_digest(lp);
    let mut a = MastForest::new();
    let ext_q = ExternalNodeBuilder::new(q).add_to_forest(&mut a).unwrap();
    let call_a = CallNodeBuilder::new(ext_q).add_to_forest(&mut a).unwrap();
    let call_a_digest = a.node_digest(call_a);
    let ext_call = ExternalNodeBuilder::new(call_a_digest).add_to_forest(&mut b).unwrap();
    let call_b = CallNodeBuilder::new(ext_call).add_to_forest(&mut b).unwrap();
    let call_b_digest = b.node_digest(call_b);
    let merged =
        merge_plain(&[a, b], &[vec![], vec![]], vec![vec![call_a], vec![call_b]]).unwrap();
    assert_eq!(merged.forest.num_nodes(), 4);
    let externals = (0..4)
        .filter(|&i| merged.forest.get_node_by_id(n(i)).unwrap().is_external())
        .count();
    assert_eq!(externals, 1);
    assert_eq!(merged.forest.node_digest(n(0)), BAR);
    assert_eq!(merged.forest.node_digest(n(1)), q);
    assert_eq!(merged.forest.get_node_by_id(n(2)).unwrap().unwrap_call().callee(), n(1));
    assert_eq!(merged.forest.node_digest(n(2)), call_a_digest);
    assert_eq!(merged.forest.get_node_by_id(n(3)).unwrap().unwrap_call().callee(), n(2));
    assert_eq!(merged.forest.node_digest(n(3)), call_b_digest);
    assert_eq!(merged.root_map.map_root(0, &call_a), Some(n(2)));
    assert_eq!(merged.root_map.map_root(1, &call_b), Some(n(3)));
}

/// Advice maps are merged: entries of both forests are kept, and an entry met again with the
/// same values is kept once.
#[test]
fn merge_merges_advice_maps() {
    let mut a = MastForest::new();
    let foo = ExternalNodeBuilder::new(FOO).add_to_forest(&mut a).unwrap();
    let mut b = MastForest::new();
    let bar = ExternalNodeBuilder::new(BAR).add_to_forest(&mut b).unwrap();
    let key_a = [1u64, 2, 3, 4];
    let key_b = [1u64, 3, 2, 1];
    let advice = vec![vec![(key_a, vec![1u64, 1])], vec![(key_b, vec![2u64, 2]), (key_a, vec![1u64, 1])]];
    let codes: Vec<Vec<(u64, String)>> = vec![vec![], vec![]];
    let merged =
        MastForest::merge(&[a, b], &[vec![], vec![]], vec![vec![foo], vec![bar]], &advice, &codes)
            .unwrap();
    assert_eq!(merged.advice_map, vec![(key_a, vec![1, 1]), (key_b, vec![2, 2])]);
}

/// A key with other values in another forest's advice map refuses the merge.
#[test]
fn merge_refuses_advice_map_key_collision() {
    let mut a = MastForest::new();
    let foo = ExternalNodeBuilder::new(FOO).add_to_forest(&mut a).unwrap();
    let mut b = MastForest::new();
    let bar = ExternalNodeBuilder::new(BAR).add_to_forest(&mut b).unwrap();
    let key = [1u64, 2, 3, 4];
    let advice = vec![vec![(key, vec![1u64, 1])], vec![(key, vec![2u64, 2])]];
    let codes: Vec<Vec<(u64, String)>> = vec![vec![], vec![]];
    let r = MastForest::merge(&[a, b], &[vec![], vec![]], vec![vec![foo], vec![bar]], &advice, &codes);
    assert!(matches!(r, Err(MastForestError::AdviceMapKeyCollisionOnMerge(k)) if k == key));
}

/// Error codes of all forests are merged; a code met again takes the later message.
#[test]
fn merge_merges_error_codes() {
    let mut a = MastForest::new();
    let foo = ExternalNodeBuilder::new(FOO).add_to_forest(&mut a).unwrap();
    let mut b = MastForest::new();
    let bar = ExternalNodeBuilder::new(BAR).add_to_forest(&mut b).unwrap();
    let advice: Vec<Vec<([u64; 4], Vec<u64>)>> = vec![vec![], vec![]];
    let codes = vec![
        vec![(1u64, String::from("one")), (2u64, String::from("two"))],
        vec![(2u64, String::from("deux")), (3u64, String::from("three"))],
    ];
    let merged =
        MastForest::merge(&[a, b], &[vec![], vec![]], vec![vec![foo], vec![bar]], &advice, &codes)
            .unwrap();
    assert_eq!(merged.error_codes.len(), 3);
    assert_eq!(merged.error_codes.get(&1).map(String::as_str), Some("one"));
    assert_eq!(merged.error_codes.get(&2).map(String::as_str), Some("deux"));
    assert_eq!(merged.error_codes.get(&3).map(String::as_str), Some("three"));
}

/// Tests that forests' advice maps are merged correctly.
#[test]
fn mast_forest_merge_advice_maps_merged() {
    let mut forest_a = MastForest::new();
    let id_foo = ExternalNodeBuilder::new(FOO).add_to_forest(&mut forest_a).unwrap();
    let id_call_a = CallNodeBuilder::new(id_foo).add_to_forest(&mut forest_a).unwrap();
    let key_a = [1u64, 2, 3, 4];
    let value_a = vec![1u64, 1];
    let mut forest_b = MastForest::new();
    let id_bar = ExternalNodeBuilder::new(BAR).add_to_forest(&mut forest_b).unwrap();
    let id_call_b = CallNodeBuilder::new(id_bar).add_to_forest(&mut forest_b).unwrap();
    let key_b = [1u64, 3, 2, 1];
    let value_b = vec![2u64, 2];
    let advice = vec![vec![(key_a, value_a.clone())], vec![(key_b, value_b.clone())]];
    let codes: Vec<Vec<(u64, String)>> = vec![vec![], vec![]];
    let merged = MastForest::merge(
        &[forest_a, forest_b],
        &[vec![], vec![]],
        vec![vec![id_call_a], vec![id_call_b]],
        &advice,
        &codes,
    )
    .unwrap();
    assert_eq!(merged.advice_map.len(), 2);
    let get = |k: [u64; 4]| merged.advice_map.iter().find(|(key, _)| *key == k).map(|(_, v)| v.clone());
    assert_eq!(get(key_a).unwrap(), value_a);
    assert_eq!(get(key_b).unwrap(), value_b);
}

/// Tests that an error is returned when advice maps have a key collision.
#[test]
fn mast_forest_merge_advice_maps_collision() {
    let mut forest_a = MastForest::new();
    let id_foo = ExternalNodeBuilder::new(FOO).add_to_forest(&mut forest_a).unwrap();
    let id_call_a = CallNodeBuilder::new(id_foo).add_to_forest(&mut forest_a).unwrap();
    let key_a = [1u64, 2, 3, 4];
    let value_a = vec![1u64, 1];
    let mut forest_b = MastForest::new();
    let id_bar = ExternalNodeBuilder::new(BAR).add_to_forest(&mut forest_b).unwrap();
    let id_call_b = CallNodeBuilder::new(id_bar).add_to_forest(&mut forest_b).unwrap();
    // The key collides with key_a in forest_a.
    let key_b = key_a;
    let value_b = vec![2u64, 2];
    let advice = vec![vec![(key_a, value_a)], vec![(key_b, value_b)]];
    let codes: Vec<Vec<(u64, String)>> = vec![vec![], vec![]];
    let err = MastForest::merge(
        &[forest_a, forest_b],
        &[vec![], vec![]],
        vec![vec![id_call_a], vec![id_call_b]],
        &advice,
        &codes,
    );
    assert!(matches!(err, Err(MastForestError::AdviceMapKeyCollisionOnMerge(_))));
}
