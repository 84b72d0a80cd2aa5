//! Call nodes, which run their callee in a new execution context (a new user context, or the
//! root context for a syscall), and their builder.
use vstd::prelude::*;

use std::collections::BTreeMap;

use crate::debuginfo::DecoratedOpLink;
use crate::ids::{DecoratorId, MastNodeId, remapped};
use crate::mast_forest::{
    MastForest, MastForestContributor, MastForestError, MastNode, MastNodeErrorContext,
    MastNodeView, OPCODE_CALL, OPCODE_SYSCALL, Word, copy_ids, enumerate_decorators, extend_ids,
    merge_in_domain, rpo_merge_in_domain, zero_word,
};
use crate::node_fingerprint::{
    DecoratorFingerprint, MastNodeFingerprint, MastNodeFingerprintView, fingerprint_from_parts,
    fingerprint_of, fingerprint_seqs, fingerprint_views, ids_below,
};

verus! {

/// The model of a call node.
pub ghost struct CallNodeView {
    pub callee: MastNodeId,
    pub is_syscall: bool,
    pub digest: Seq<u64>,
    pub before_enter: Seq<DecoratorId>,
    pub after_exit: Seq<DecoratorId>,
}

/// The hashing domain of a call (`false`) or a syscall (`true`).
pub open spec fn call_domain(is_syscall: bool) -> u64 {
    if is_syscall {
        OPCODE_SYSCALL as u64
    } else {
        OPCODE_CALL as u64
    }
}

/// A node that runs its callee in another execution context: a new user context for a simple
/// call, the root context for a syscall.
pub struct CallNode {
    callee: MastNodeId,
    is_syscall: bool,
    digest: Word,
    before_enter: Vec<DecoratorId>,
    after_exit: Vec<DecoratorId>,
}

impl View for CallNode {
    type V = CallNodeView;

    closed spec fn view(&self) -> CallNodeView {
        CallNodeView {
            callee: self.callee,
            is_syscall: self.is_syscall,
            digest: self.digest@,
            before_enter: self.before_enter@,
            after_exit: self.after_exit@,
        }
    }
}

impl CallNode {
    /// A simple call of the given callee without decorators, built against the forest that
    /// holds it.
    pub fn new(callee: MastNodeId, mast_forest: &MastForest) -> (r: Result<CallNode, MastForestError>)
        ensures
            ({
                let b = CallNodeBuilderView {
                    callee,
                    is_syscall: false,
                    before_enter: Seq::empty(),
                    after_exit: Seq::empty(),
                };
                match r {
                    Ok(node) => call_built(b, mast_forest@) == Ok::<CallNodeView, MastForestError>(
                        node@,
                    ),
                    Err(e) => call_built(b, mast_forest@) == Err::<CallNodeView, MastForestError>(e),
                }
            }),
    {
        CallNodeBuilder::new(callee).build(mast_forest)
    }

    /// A syscall of the given callee without decorators, built against the forest that holds
    /// it.
    pub fn new_syscall(callee: MastNodeId, mast_forest: &MastForest) -> (r: Result<
        CallNode,
        MastForestError,
    >)
        ensures
            ({
                let b = CallNodeBuilderView {
                    callee,
                    is_syscall: true,
                    before_enter: Seq::empty(),
                    after_exit: Seq::empty(),
                };
                match r {
                    Ok(node) => call_built(b, mast_forest@) == Ok::<CallNodeView, MastForestError>(
                        node@,
                    ),
                    Err(e) => call_built(b, mast_forest@) == Err::<CallNodeView, MastForestError>(e),
                }
            }),
    {
        CallNodeBuilder::new_syscall(callee).build(mast_forest)
    }

    /// A simple call with the given callee and digest, taken as they are (for trusted sources
    /// such as deserialization).
    pub fn new_unsafe(callee: MastNodeId, digest: Word) -> (node: CallNode)
        ensures
            node@ == (CallNodeView {
                callee,
                is_syscall: false,
                digest: digest@,
                before_enter: Seq::empty(),
                after_exit: Seq::empty(),
            }),
    {
        CallNode { callee, is_syscall: false, digest, before_enter: Vec::new(), after_exit: Vec::new() }
    }

    /// A syscall with the given callee and digest, taken as they are (for trusted sources such
    /// as deserialization).
    pub fn new_syscall_unsafe(callee: MastNodeId, digest: Word) -> (node: CallNode)
        ensures
            node@ == (CallNodeView {
                callee,
                is_syscall: true,
                digest: digest@,
                before_enter: Seq::empty(),
                after_exit: Seq::empty(),
            }),
    {
        CallNode { callee, is_syscall: true, digest, before_enter: Vec::new(), after_exit: Vec::new() }
    }

    /// The id of the node that is called.
    pub fn callee(&self) -> (r: MastNodeId)
        ensures
            r == self@.callee,
    {
        self.callee
    }

    /// Whether the callee runs in the root context.
    pub fn is_syscall(&self) -> (r: bool)
        ensures
            r == self@.is_syscall,
    {
        self.is_syscall
    }

    /// The commitment to this node: the callee's digest and the zero word merged in the call
    /// or syscall domain.
    pub fn digest(&self) -> (r: Word)
        ensures
            r@ == self@.digest,
    {
        self.digest
    }

    /// The decorators run before this node.
    pub fn before_enter(&self) -> (r: &[DecoratorId])
        ensures
            r@ == self@.before_enter,
    {
        self.before_enter.as_slice()
    }

    /// The decorators run after this node.
    pub fn after_exit(&self) -> (r: &[DecoratorId])
        ensures
            r@ == self@.after_exit,
    {
        self.after_exit.as_slice()
    }

    /// Whether this node has children: a call node always has its callee.
    pub fn has_children(&self) -> (r: bool)
        ensures
            r,
    {
        true
    }

    /// Appends the id of the callee to `target`.
    pub fn append_children_to(&self, target: &mut Vec<MastNodeId>)
        ensures
            final(target)@ == old(target)@.push(self@.callee),
    {
        target.push(self.callee);
    }

    /// The same node with its callee moved to where `remapping` (keyed by node index) sends
    /// it; the digest, the kind of call and the decorators are kept.
    pub fn remap_children(&self, remapping: &BTreeMap<u32, MastNodeId>) -> (r: Self)
        ensures
            r@ == (CallNodeView { callee: remapped(self@.callee, remapping@), ..self@ }),
    {
        CallNode {
            callee: self.callee.remap(remapping),
            is_syscall: self.is_syscall,
            digest: self.digest,
            before_enter: copy_ids(self.before_enter.as_slice()),
            after_exit: copy_ids(self.after_exit.as_slice()),
        }
    }

    /// Appends decorators to be run before this node.
    pub fn append_before_enter(&mut self, decorator_ids: &[DecoratorId])
        ensures
            final(self)@ == (CallNodeView {
                before_enter: old(self)@.before_enter + decorator_ids@,
                ..old(self)@
            }),
    {
        extend_ids(&mut self.before_enter, decorator_ids);
    }

    /// Appends decorators to be run after this node.
    pub fn append_after_exit(&mut self, decorator_ids: &[DecoratorId])
        ensures
            final(self)@ == (CallNodeView {
                after_exit: old(self)@.after_exit + decorator_ids@,
                ..old(self)@
            }),
    {
        extend_ids(&mut self.after_exit, decorator_ids);
    }

    /// Removes all decorators of this node.
    pub fn remove_decorators(&mut self)
        ensures
            final(self)@ == (CallNodeView {
                before_enter: Seq::empty(),
                after_exit: Seq::empty(),
                ..old(self)@
            }),
    {
        self.before_enter.truncate(0);
        self.after_exit.truncate(0);
        proof {
            assert(self.before_enter@ =~= Seq::<DecoratorId>::empty());
            assert(self.after_exit@ =~= Seq::<DecoratorId>::empty());
        }
    }

    /// The builder that makes this node again: same callee, same kind of call, same decorators.
    pub fn to_builder(self) -> (b: CallNodeBuilder)
        ensures
            b@ == builder_of_call(self@),
    {
        CallNodeBuilder {
            callee: self.callee,
            is_syscall: self.is_syscall,
            before_enter: self.before_enter,
            after_exit: self.after_exit,
        }
    }

    /// The hashing domain of this node: that of syscalls or that of calls.
    pub fn domain(&self) -> (r: u64)
        ensures
            r == call_domain(self@.is_syscall),
    {
        if self.is_syscall {
            OPCODE_SYSCALL as u64
        } else {
            OPCODE_CALL as u64
        }
    }
}

impl MastNodeErrorContext for CallNode {
    open spec fn decorator_ids(&self) -> Seq<DecoratorId> {
        self@.before_enter + self@.after_exit
    }

    fn decorators(&self) -> (r: Vec<DecoratedOpLink>) {
        enumerate_decorators(self.before_enter.as_slice(), self.after_exit.as_slice())
    }
}

/// The model of a call node builder.
pub ghost struct CallNodeBuilderView {
    pub callee: MastNodeId,
    pub is_syscall: bool,
    pub before_enter: Seq<DecoratorId>,
    pub after_exit: Seq<DecoratorId>,
}

/// The call node that `b` builds against `forest`: the callee must be a node of the forest, and
/// the digest merges the callee's digest with the zero word in the call or syscall domain.
pub open spec fn call_built(b: CallNodeBuilderView, forest: Seq<MastNodeView>) -> Result<
    CallNodeView,
    MastForestError,
> {
    if b.callee.index() >= forest.len() {
        Err(MastForestError::NodeIdOverflow(b.callee, forest.len() as usize))
    } else {
        Ok(
            CallNodeView {
                callee: b.callee,
                is_syscall: b.is_syscall,
                digest: rpo_merge_in_domain(
                    forest[b.callee.index() as int].digest(),
                    zero_word(),
                    call_domain(b.is_syscall),
                ),
                before_enter: b.before_enter,
                after_exit: b.after_exit,
            },
        )
    }
}

/// The builder of a call node's callee, kind of call and decorators.
pub open spec fn builder_of_call(n: CallNodeView) -> CallNodeBuilderView {
    CallNodeBuilderView {
        callee: n.callee,
        is_syscall: n.is_syscall,
        before_enter: n.before_enter,
        after_exit: n.after_exit,
    }
}

/// A call node built against a forest is built again, the same, by its own builder against
/// that forest.
pub proof fn lemma_call_round_trip(b: CallNodeBuilderView, forest: Seq<MastNodeView>)
    requires
        call_built(b, forest) is Ok,
    ensures
        call_built(builder_of_call(call_built(b, forest)->Ok_0), forest) == call_built(b, forest),
{
}

/// Builder for call nodes with decorators.
pub struct CallNodeBuilder {
    callee: MastNodeId,
    is_syscall: bool,
    before_enter: Vec<DecoratorId>,
    after_exit: Vec<DecoratorId>,
}

impl View for CallNodeBuilder {
    type V = CallNodeBuilderView;

    closed spec fn view(&self) -> CallNodeBuilderView {
        CallNodeBuilderView {
            callee: self.callee,
            is_syscall: self.is_syscall,
            before_enter: self.before_enter@,
            after_exit: self.after_exit@,
        }
    }
}

impl CallNodeBuilder {
    /// A builder for a simple call of the given callee, with no decorators.
    pub fn new(callee: MastNodeId) -> (b: Self)
        ensures
            b@ == (CallNodeBuilderView {
                callee,
                is_syscall: false,
                before_enter: Seq::empty(),
                after_exit: Seq::empty(),
            }),
    {
        CallNodeBuilder { callee, is_syscall: false, before_enter: Vec::new(), after_exit: Vec::new() }
    }

    /// A builder for a syscall of the given callee, with no decorators.
    pub fn new_syscall(callee: MastNodeId) -> (b: Self)
        ensures
            b@ == (CallNodeBuilderView {
                callee,
                is_syscall: true,
                before_enter: Seq::empty(),
                after_exit: Seq::empty(),
            }),
    {
        CallNodeBuilder { callee, is_syscall: true, before_enter: Vec::new(), after_exit: Vec::new() }
    }

    /// Sets the decorators to be run before the node.
    pub fn with_before_enter(self, decorators: Vec<DecoratorId>) -> (b: Self)
        ensures
            b@ == (CallNodeBuilderView { before_enter: decorators@, ..self@ }),
    {
        CallNodeBuilder { before_enter: decorators, ..self }
    }

    /// Sets the decorators to be run after the node.
    pub fn with_after_exit(self, decorators: Vec<DecoratorId>) -> (b: Self)
        ensures
            b@ == (CallNodeBuilderView { after_exit: decorators@, ..self@ }),
    {
        CallNodeBuilder { after_exit: decorators, ..self }
    }

    /// The same builder with its callee moved to where `remapping` (keyed by node index) sends
    /// it.
    pub fn remap_children(self, remapping: &BTreeMap<u32, MastNodeId>) -> (b: Self)
        ensures
            b@ == (CallNodeBuilderView { callee: remapped(self@.callee, remapping@), ..self@ }),
    {
        CallNodeBuilder { callee: self.callee.remap(remapping), ..self }
    }

    /// Builds the call node against the forest that holds its callee.
    pub fn build(self, mast_forest: &MastForest) -> (r: Result<CallNode, MastForestError>)
        ensures
            match r {
                Ok(node) => call_built(self@, mast_forest@) == Ok::<
                    CallNodeView,
                    MastForestError,
                >(node@),
                Err(e) => call_built(self@, mast_forest@) == Err::<CallNodeView, MastForestError>(
                    e,
                ),
            },
    {
        let forest_len = mast_forest.num_nodes();
        if self.callee.to_usize() >= forest_len {
            return Err(MastForestError::NodeIdOverflow(self.callee, forest_len));
        }
        let callee_digest = mast_forest.node_digest(self.callee);
        let zero: Word = [0, 0, 0, 0];
        let domain: u64 = if self.is_syscall {
            OPCODE_SYSCALL as u64
        } else {
            OPCODE_CALL as u64
        };
        let digest = merge_in_domain(&[callee_digest, zero], domain);
        proof {
            assert(zero@ =~= zero_word());
        }
        let node = CallNode {
            callee: self.callee,
            is_syscall: self.is_syscall,
            digest,
            before_enter: self.before_enter,
            after_exit: self.after_exit,
        };
        proof {
            assert(node@ == call_built(self@, mast_forest@)->Ok_0);
        }
        Ok(node)
    }
}

impl CallNodeBuilder {
    /// The fingerprint of the node this builder makes, computed from the builder itself:
    /// the decorators' fingerprints (by id), the known node fingerprints (by node id), the
    /// decorators, the callee, and the digest computed as `build` computes it.
    pub fn fingerprint_for_node(
        &self,
        forest: &MastForest,
        decorator_fingerprints: &[DecoratorFingerprint],
        hash_by_node_id: &[MastNodeFingerprint],
    ) -> (r: Result<MastNodeFingerprint, MastForestError>)
        requires
            self@.callee.index() < forest@.len(),
            ids_below(self@.before_enter, decorator_fingerprints@.len()),
            ids_below(self@.after_exit, decorator_fingerprints@.len()),
        ensures
            ({
                let expected = fingerprint_of(
                    fingerprint_seqs(decorator_fingerprints@),
                    fingerprint_views(hash_by_node_id@),
                    self@.before_enter,
                    self@.after_exit,
                    seq![self@.callee],
                    call_built(self@, forest@)->Ok_0.digest,
                );
                match r {
                    Ok(f) => expected == Ok::<MastNodeFingerprintView, MastForestError>(f@),
                    Err(e) => expected == Err::<MastNodeFingerprintView, MastForestError>(e),
                }
            }),
    {
        let callee_digest = forest.node_digest(self.callee);
        let zero: Word = [0, 0, 0, 0];
        let domain: u64 = if self.is_syscall {
            OPCODE_SYSCALL as u64
        } else {
            OPCODE_CALL as u64
        };
        let digest = merge_in_domain(&[callee_digest, zero], domain);
        proof {
            assert(zero@ =~= zero_word());
        }
        let children = [self.callee];
        proof {
            assert(children@ =~= seq![self@.callee]);
        }
        fingerprint_from_parts(
            decorator_fingerprints,
            hash_by_node_id,
            self.before_enter.as_slice(),
            self.after_exit.as_slice(),
            &children,
            digest,
        )
    }
}

impl MastForestContributor for CallNodeBuilder {
    open spec fn built(&self, forest: Seq<MastNodeView>) -> Result<MastNodeView, MastForestError> {
        match call_built(self@, forest) {
            Ok(n) => Ok(MastNodeView::Call(n)),
            Err(e) => Err(e),
        }
    }

    fn add_to_forest(self, forest: &mut MastForest) -> (r: Result<MastNodeId, MastForestError>) {
        match self.build(forest) {
            Ok(node) => forest.push_node(MastNode::Call(node)),
            Err(e) => Err(e),
        }
    }
}

/// Bounds for generating call node builders: at most `max_decorators` decorators on each side,
/// with ids up to `max_decorator_id_u32`.
#[derive(Clone, Copy, Debug)]
pub struct CallNodeBuilderParams {
    pub max_decorators: usize,
    pub max_decorator_id_u32: u32,
}

impl Default for CallNodeBuilderParams {
    fn default() -> (p: Self)
        ensures
            p.max_decorators == 4,
            p.max_decorator_id_u32 == 10,
    {
        CallNodeBuilderParams { max_decorators: 4, max_decorator_id_u32: 10 }
    }
}

} // verus!
