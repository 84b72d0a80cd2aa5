use miden_crypto::hash::blake::Blake3_256;
use miden_crypto::hash::rpo::Rpo256;
use miden_crypto::Felt;

use miden_mast::call_node::{CallNode, CallNodeBuilder, CallNodeBuilderParams};
use miden_mast::external_node::{ExternalNode, ExternalNodeBuilder, ExternalNodeBuilderParams};
use miden_mast::ids::{DecoratorId, MastNodeId};
use miden_mast::join_node::{JoinNode, JoinNodeBuilder};
use miden_mast::loop_node::{LoopNode, LoopNodeBuilder};
use miden_mast::mast_forest::{
    MastForest, MastForestContributor, MastForestError, MastNode, MastNodeBuilder,
    MastNodeErrorContext, Word,
};
use miden_mast::node_fingerprint::{fingerprint_from_parts, MastNodeFingerprint};

fn n(v: u32) -> MastNodeId {
    MastNodeId::new_unchecked(v)
}

fn d(v: u32) -> DecoratorId {
    DecoratorId(v)
}

fn expected_merge(left: Word, right: Word, domain: u64) -> Word {
    let l = miden_crypto::Word::new(left.map(Felt::new));
    let r = miden_crypto::Word::new(right.map(Felt::new));
    Rpo256::merge_in_domain(&[l, r], Felt::new(domain)).into()
}

fn forest_with_two_externals() -> MastForest {
    let mut forest = MastForest::new();
    assert_eq!(ExternalNodeBuilder::new([1, 2, 3, 4]).add_to_forest(&mut forest), Ok(n(0)));
    assert_eq!(ExternalNodeBuilder::new([5, 6, 7, 8]).add_to_forest(&mut forest), Ok(n(1)));
    forest
}

#[test]
fn external_nodes_are_added_in_order() {
    let forest = forest_with_two_externals();
    assert_eq!(forest.num_nodes(), 2);
    assert_eq!(forest.node_digest(n(0)), [1, 2, 3, 4]);
    assert_eq!(forest.node_digest(n(1)), [5, 6, 7, 8]);
    assert!(forest.get_node_by_id(n(2)).is_none());
    match forest.get_node_by_id(n(1)) {
        Some(MastNode::External(node)) => assert_eq!(node.digest(), [5, 6, 7, 8]),
        _ => panic!("expected an external node"),
    }
}

#[test]
fn join_digest_merges_children_in_join_domain() {
    let forest = forest_with_two_externals();
    let node = JoinNodeBuilder::new([n(0), n(1)]).build(&forest).unwrap();
    assert_eq!(node.first(), n(0));
    assert_eq!(node.second(), n(1));
    assert_eq!(node.domain(), 87);
    assert_eq!(node.digest(), expected_merge([1, 2, 3, 4], [5, 6, 7, 8], 87));
    assert_ne!(node.digest(), [1, 2, 3, 4]);
}

#[test]
fn join_refuses_children_outside_the_forest() {
    let mut forest = forest_with_two_externals();
    let r = JoinNodeBuilder::new([n(2), n(0)]).build(&forest);
    assert!(matches!(r, Err(MastForestError::NodeIdOverflow(id, 2)) if id == n(2)));
    let r = JoinNodeBuilder::new([n(0), n(9)]).build(&forest);
    assert!(matches!(r, Err(MastForestError::NodeIdOverflow(id, 2)) if id == n(9)));
    let r = JoinNodeBuilder::new([n(5), n(9)]).add_to_forest(&mut forest);
    assert_eq!(r, Err(MastForestError::NodeIdOverflow(n(5), 2)));
    assert_eq!(forest.num_nodes(), 2);
}

#[test]
fn loop_digest_merges_body_with_zero_word() {
    let mut forest = forest_with_two_externals();
    let node = LoopNodeBuilder::new(n(1)).build(&forest).unwrap();
    assert_eq!(node.body(), n(1));
    assert_eq!(node.domain(), 85);
    assert_eq!(node.digest(), expected_merge([5, 6, 7, 8], [0, 0, 0, 0], 85));
    assert_eq!(LoopNodeBuilder::new(n(0)).add_to_forest(&mut forest), Ok(n(2)));
    let r = LoopNodeBuilder::new(n(3)).build(&forest);
    assert!(matches!(r, Err(MastForestError::NodeIdOverflow(id, 3)) if id == n(3)));
}

#[test]
fn call_and_syscall_use_their_own_domains() {
    let forest = forest_with_two_externals();
    let call = CallNodeBuilder::new(n(0)).build(&forest).unwrap();
    let syscall = CallNodeBuilder::new_syscall(n(0)).build(&forest).unwrap();
    assert!(!call.is_syscall());
    assert!(syscall.is_syscall());
    assert_eq!(call.callee(), n(0));
    assert_eq!(call.domain(), 108);
    assert_eq!(syscall.domain(), 104);
    assert_eq!(call.digest(), expected_merge([1, 2, 3, 4], [0, 0, 0, 0], 108));
    assert_eq!(syscall.digest(), expected_merge([1, 2, 3, 4], [0, 0, 0, 0], 104));
    assert_ne!(call.digest(), syscall.digest());
}

#[test]
fn decorators_list_before_then_after_with_positions() {
    let forest = forest_with_two_externals();
    let node = JoinNodeBuilder::new([n(0), n(1)])
        .with_before_enter(vec![d(3), d(4)])
        .with_after_exit(vec![d(5)])
        .build(&forest)
        .unwrap();
    assert_eq!(node.before_enter(), &[d(3), d(4)]);
    assert_eq!(node.after_exit(), &[d(5)]);
    assert_eq!(node.decorators(), vec![(0, d(3)), (1, d(4)), (2, d(5))]);

    let ext = ExternalNodeBuilder::new([0, 0, 0, 1]).with_after_exit(vec![d(1)]).build();
    assert_eq!(ext.decorators(), vec![(0, d(1))]);
    let lp = LoopNodeBuilder::new(n(0)).build(&forest).unwrap();
    assert_eq!(lp.decorators(), vec![]);
    let call = CallNodeBuilder::new(n(1)).with_before_enter(vec![d(2)]).build(&forest).unwrap();
    assert_eq!(call.decorators(), vec![(0, d(2))]);
}

#[test]
fn test_join_node_builder_round_trip() {
    let mut forest = forest_with_two_externals();
    let join_id = JoinNodeBuilder::new([n(0), n(1)])
        .with_before_enter(vec![d(1)])
        .add_to_forest(&mut forest)
        .unwrap();
    assert_eq!(join_id, n(2));
    let digest = forest.node_digest(join_id);
    let node = JoinNodeBuilder::new([n(0), n(1)]).with_before_enter(vec![d(1)]).build(&forest).unwrap();
    assert_eq!(node.digest(), digest);
    let rebuilt = node.to_builder().build(&forest).unwrap();
    assert_eq!(rebuilt.digest(), digest);
    assert_eq!(rebuilt.first(), n(0));
    assert_eq!(rebuilt.second(), n(1));
    assert_eq!(rebuilt.before_enter(), &[d(1)]);

    let call = CallNodeBuilder::new_syscall(n(1)).build(&forest).unwrap();
    let call_digest = call.digest();
    let again = call.to_builder().build(&forest).unwrap();
    assert!(again.is_syscall());
    assert_eq!(again.digest(), call_digest);

    let lp = LoopNodeBuilder::new(n(2)).build(&forest).unwrap();
    let loop_digest = lp.digest();
    assert_eq!(lp.to_builder().build(&forest).unwrap().digest(), loop_digest);

    let ext = ExternalNodeBuilder::new([9, 9, 9, 9]).with_before_enter(vec![d(2)]).build();
    let ext_again = ext.to_builder().build();
    assert_eq!(ext_again.digest(), [9, 9, 9, 9]);
    assert_eq!(ext_again.before_enter(), &[d(2)]);
}

#[test]
fn remap_children_moves_the_callee() {
    let forest = forest_with_two_externals();
    let mut remapping = std::collections::BTreeMap::new();
    remapping.insert(7u32, n(1));
    let call = CallNodeBuilder::new(n(7)).remap_children(&remapping).build(&forest).unwrap();
    assert_eq!(call.callee(), n(1));
    let call = CallNodeBuilder::new(n(0)).remap_children(&remapping).build(&forest).unwrap();
    assert_eq!(call.callee(), n(0));
    assert_eq!(n(7).remap(&remapping), n(1));
    assert_eq!(n(3).remap(&remapping), n(3));
}

#[test]
fn builder_params_default_bounds() {
    let p = CallNodeBuilderParams::default();
    assert_eq!(p.max_decorators, 4);
    assert_eq!(p.max_decorator_id_u32, 10);
    let p = ExternalNodeBuilderParams::default();
    assert_eq!(p.max_decorators, 4);
    assert_eq!(p.max_decorator_id_u32, 10);
}

#[test]
fn fingerprint_without_decorators_is_the_digest_alone() {
    let fps: Vec<[u8; 32]> = vec![[7u8; 32]];
    let known: Vec<MastNodeFingerprint> = Vec::new();
    let f = ExternalNodeBuilder::new([1, 2, 3, 4]).fingerprint_for_node(&fps, &known).unwrap();
    assert_eq!(f, MastNodeFingerprint::new([1, 2, 3, 4]));
    assert_eq!(f.mast_root(), &[1, 2, 3, 4]);
}

#[test]
fn fingerprint_hashes_decorator_fingerprints() {
    let fps: Vec<[u8; 32]> = vec![[7u8; 32], [8u8; 32]];
    let known: Vec<MastNodeFingerprint> = Vec::new();
    let f0 = ExternalNodeBuilder::new([1, 2, 3, 4])
        .with_before_enter(vec![d(0)])
        .fingerprint_for_node(&fps, &known)
        .unwrap();
    let root: [u8; 32] = Blake3_256::hash(&[7u8; 32]).into();
    assert_eq!(f0, MastNodeFingerprint::with_decorator_root([1, 2, 3, 4], root));
    let f1 = ExternalNodeBuilder::new([1, 2, 3, 4])
        .with_before_enter(vec![d(1)])
        .fingerprint_for_node(&fps, &known)
        .unwrap();
    assert_ne!(f0, f1);
    let f2 = ExternalNodeBuilder::new([1, 2, 3, 4])
        .with_after_exit(vec![d(0)])
        .fingerprint_for_node(&fps, &known)
        .unwrap();
    assert_eq!(f0, f2);
}

#[test]
fn fingerprint_needs_children_fingerprints() {
    let forest = forest_with_two_externals();
    let fps: Vec<[u8; 32]> = Vec::new();
    let known: Vec<MastNodeFingerprint> = Vec::new();
    let r = CallNodeBuilder::new(n(1)).fingerprint_for_node(&forest, &fps, &known);
    assert_eq!(r, Err(MastForestError::ChildFingerprintMissing(n(1))));

    let child_root = [3u8; 32];
    let known = vec![
        MastNodeFingerprint::new([1, 2, 3, 4]),
        MastNodeFingerprint::with_decorator_root([5, 6, 7, 8], child_root),
    ];
    let f = CallNodeBuilder::new(n(0)).fingerprint_for_node(&forest, &fps, &known).unwrap();
    let call_digest = expected_merge([1, 2, 3, 4], [0, 0, 0, 0], 108);
    assert_eq!(f, MastNodeFingerprint::new(call_digest));
    let f = CallNodeBuilder::new(n(1)).fingerprint_for_node(&forest, &fps, &known).unwrap();
    let call_digest = expected_merge([5, 6, 7, 8], [0, 0, 0, 0], 108);
    let root: [u8; 32] = Blake3_256::hash(&child_root).into();
    assert_eq!(f, MastNodeFingerprint::with_decorator_root(call_digest, root));
}

#[test]
fn fingerprint_from_parts_reports_first_missing_child() {
    let known = vec![MastNodeFingerprint::new([0, 0, 0, 0])];
    let r = fingerprint_from_parts(&[], &known, &[], &[], &[n(0), n(4), n(2)], [1, 1, 1, 1]);
    assert_eq!(r, Err(MastForestError::ChildFingerprintMissing(n(4))));
}

#[test]
fn node_builder_enum_builds_and_adds_every_kind() {
    let mut forest = forest_with_two_externals();
    let join = MastNodeBuilder::Join(JoinNodeBuilder::new([n(0), n(1)]));
    assert_eq!(join.add_to_forest(&mut forest), Ok(n(2)));
    let lp = MastNodeBuilder::Loop(LoopNodeBuilder::new(n(2)));
    assert_eq!(lp.add_to_forest(&mut forest), Ok(n(3)));
    let call = MastNodeBuilder::Call(CallNodeBuilder::new(n(3)));
    assert_eq!(call.add_to_forest(&mut forest), Ok(n(4)));
    let bad = MastNodeBuilder::Call(CallNodeBuilder::new(n(40)));
    assert_eq!(bad.add_to_forest(&mut forest), Err(MastForestError::NodeIdOverflow(n(40), 5)));
    assert_eq!(forest.num_nodes(), 5);

    let node = forest.get_node_by_id(n(2)).unwrap();
    assert!(!node.is_external());
    assert!(node.has_children());
    assert_eq!(node.unwrap_join().second(), n(1));
    let mut children = vec![n(9)];
    node.append_children_to(&mut children);
    assert_eq!(children, vec![n(9), n(0), n(1)]);
    assert_eq!(forest.get_node_by_id(n(3)).unwrap().unwrap_loop().body(), n(2));
    assert_eq!(forest.get_node_by_id(n(4)).unwrap().unwrap_call().callee(), n(3));
    let ext = forest.get_node_by_id(n(0)).unwrap();
    assert!(ext.is_external());
    assert!(!ext.has_children());
    assert_eq!(ext.unwrap_external().digest(), [1, 2, 3, 4]);
    let mut none = Vec::new();
    ext.append_children_to(&mut none);
    assert!(none.is_empty());
}

#[test]
fn node_to_builder_builds_the_same_node() {
    let forest = forest_with_two_externals();
    let built = MastNodeBuilder::Join(JoinNodeBuilder::new([n(1), n(0)])).build(&forest).unwrap();
    let digest = built.digest();
    let again = built.to_builder().build(&forest).unwrap();
    assert_eq!(again.digest(), digest);
    assert_eq!(again.unwrap_join().first(), n(1));
}

#[test]
fn node_decorators_can_be_appended_and_removed() {
    let forest = forest_with_two_externals();
    let mut node = JoinNodeBuilder::new([n(0), n(1)]).build(&forest).unwrap();
    node.append_before_enter(&[d(1), d(2)]);
    node.append_before_enter(&[d(3)]);
    node.append_after_exit(&[d(4)]);
    assert_eq!(node.before_enter(), &[d(1), d(2), d(3)]);
    assert_eq!(node.after_exit(), &[d(4)]);
    let digest = node.digest();
    node.remove_decorators();
    assert_eq!(node.before_enter(), &[]);
    assert_eq!(node.after_exit(), &[]);
    assert_eq!(node.digest(), digest);

    let mut remapping = std::collections::BTreeMap::new();
    remapping.insert(0u32, n(5));
    let moved = node.remap_children(&remapping);
    assert_eq!(moved.first(), n(5));
    assert_eq!(moved.second(), n(1));
    assert_eq!(moved.digest(), digest);
}

#[test]
fn node_constructors_match_builders() {
    let forest = forest_with_two_externals();
    let join = JoinNode::new([n(0), n(1)], &forest).unwrap();
    assert_eq!(join.digest(), expected_merge([1, 2, 3, 4], [5, 6, 7, 8], 87));
    assert_eq!(
        JoinNode::new([n(0), n(2)], &forest).err(),
        Some(MastForestError::NodeIdOverflow(n(2), 2))
    );
    let lp = LoopNode::new(n(0), &forest).unwrap();
    assert_eq!(lp.digest(), expected_merge([1, 2, 3, 4], [0, 0, 0, 0], 85));
    let call = CallNode::new(n(1), &forest).unwrap();
    assert!(!call.is_syscall());
    let sys = CallNode::new_syscall(n(1), &forest).unwrap();
    assert!(sys.is_syscall());
    assert_eq!(sys.digest(), expected_merge([5, 6, 7, 8], [0, 0, 0, 0], 104));
    assert!(CallNode::new_syscall(n(3), &forest).is_err());

    assert_eq!(JoinNode::new_unsafe([n(4), n(5)], [9, 9, 9, 9]).digest(), [9, 9, 9, 9]);
    assert_eq!(LoopNode::new_unsafe(n(4), [8, 8, 8, 8]).body(), n(4));
    assert!(!CallNode::new_unsafe(n(4), [7, 7, 7, 7]).is_syscall());
    assert!(CallNode::new_syscall_unsafe(n(4), [7, 7, 7, 7]).is_syscall());
    let ext = ExternalNode::new([1, 1, 1, 1]);
    assert_eq!(ext.digest(), [1, 1, 1, 1]);
    assert_eq!(ext.before_enter(), &[]);
}

#[test]
fn forest_node_dispatch() {
    let mut forest = forest_with_two_externals();
    JoinNodeBuilder::new([n(0), n(1)])
        .with_after_exit(vec![d(6)])
        .add_to_forest(&mut forest)
        .unwrap();
    let node = forest.get_node_by_id(n(2)).unwrap();
    assert_eq!(node.domain(), 87);
    assert_eq!(node.before_enter(), &[]);
    assert_eq!(node.after_exit(), &[d(6)]);
    let mut remapping = std::collections::BTreeMap::new();
    remapping.insert(1u32, n(0));
    let mut moved = node.remap_children(&remapping);
    assert_eq!(moved.unwrap_join().second(), n(0));
    moved.append_before_enter(&[d(1)]);
    moved.append_after_exit(&[d(2)]);
    assert_eq!(moved.before_enter(), &[d(1)]);
    assert_eq!(moved.after_exit(), &[d(6), d(2)]);
    moved.remove_decorators();
    assert_eq!(moved.after_exit(), &[]);
    let ext = forest.get_node_by_id(n(0)).unwrap().remap_children(&remapping);
    assert_eq!(ext.digest(), [1, 2, 3, 4]);
}
