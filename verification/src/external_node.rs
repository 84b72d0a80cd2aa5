//! External nodes, which stand for a procedure by its digest alone, and their builder.
use vstd::prelude::*;

use std::collections::BTreeMap;

use crate::debuginfo::DecoratedOpLink;
use crate::ids::{DecoratorId, MastNodeId};
use crate::mast_forest::{
    MastForest, MastForestContributor, MastForestError, MastNode, MastNodeErrorContext,
    MastNodeView, Word, copy_ids, enumerate_decorators, extend_ids,
};
use crate::node_fingerprint::{
    DecoratorFingerprint, MastNodeFingerprint, MastNodeFingerprintView, fingerprint_from_parts,
    fingerprint_of, fingerprint_seqs, fingerprint_views, ids_below,
};

verus! {

/// The model of an external node.
pub ghost struct ExternalNodeView {
    pub digest: Seq<u64>,
    pub before_enter: Seq<DecoratorId>,
    pub after_exit: Seq<DecoratorId>,
}

/// A node that refers to a procedure not present in the forest: its digest is the digest of
/// that procedure, so that it can be swapped with the procedure's tree without changing the
/// root of the program.
pub struct ExternalNode {
    digest: Word,
    before_enter: Vec<DecoratorId>,
    after_exit: Vec<DecoratorId>,
}

impl View for ExternalNode {
    type V = ExternalNodeView;

    closed spec fn view(&self) -> ExternalNodeView {
        ExternalNodeView {
            digest: self.digest@,
            before_enter: self.before_enter@,
            after_exit: self.after_exit@,
        }
    }
}

impl ExternalNode {
    /// An external node standing for the procedure with the given digest, without decorators.
    pub fn new(procedure_hash: Word) -> (node: ExternalNode)
        ensures
            node@ == (ExternalNodeView {
                digest: procedure_hash@,
                before_enter: Seq::empty(),
                after_exit: Seq::empty(),
            }),
    {
        ExternalNode { digest: procedure_hash, before_enter: Vec::new(), after_exit: Vec::new() }
    }

    /// The same node: an external node has no children to move.
    pub fn remap_children(&self, _remapping: &BTreeMap<u32, MastNodeId>) -> (r: ExternalNode)
        ensures
            r@ == self@,
    {
        ExternalNode {
            digest: self.digest,
            before_enter: copy_ids(self.before_enter.as_slice()),
            after_exit: copy_ids(self.after_exit.as_slice()),
        }
    }

    /// The digest of the procedure this node stands for.
    pub fn digest(&self) -> (r: Word)
        ensures
            r@ == self@.digest,
    {
        self.digest
    }

    /// Whether this node has children: an external node has none.
    pub fn has_children(&self) -> (r: bool)
        ensures
            !r,
    {
        false
    }

    /// Appends decorators to be run before this node.
    pub fn append_before_enter(&mut self, decorator_ids: &[DecoratorId])
        ensures
            final(self)@ == (ExternalNodeView {
                before_enter: old(self)@.before_enter + decorator_ids@,
                ..old(self)@
            }),
    {
        extend_ids(&mut self.before_enter, decorator_ids);
    }

    /// Appends decorators to be run after this node.
    pub fn append_after_exit(&mut self, decorator_ids: &[DecoratorId])
        ensures
            final(self)@ == (ExternalNodeView {
                after_exit: old(self)@.after_exit + decorator_ids@,
                ..old(self)@
            }),
    {
        extend_ids(&mut self.after_exit, decorator_ids);
    }

    /// Removes all decorators of this node.
    pub fn remove_decorators(&mut self)
        ensures
            final(self)@ == (ExternalNodeView {
                before_enter: Seq::empty(),
                after_exit: Seq::empty(),
                ..old(self)@
            }),
    {
        self.before_enter.truncate(0);
        self.after_exit.truncate(0);
        proof {
            assert(self.before_enter@ =~= Seq::<DecoratorId>::empty());
            assert(self.after_exit@ =~= Seq::<DecoratorId>::empty());
        }
    }

    /// The builder that makes this node again.
    pub fn to_builder(self) -> (b: ExternalNodeBuilder)
        ensures
            b@ == self@,
    {
        ExternalNodeBuilder { digest: self.digest, before_enter: self.before_enter, after_exit: self.after_exit }
    }

    /// The decorators run before this node.
    pub fn before_enter(&self) -> (r: &[DecoratorId])
        ensures
            r@ == self@.before_enter,
    {
        self.before_enter.as_slice()
    }

    /// The decorators run after this node.
    pub fn after_exit(&self) -> (r: &[DecoratorId])
        ensures
            r@ == self@.after_exit,
    {
        self.after_exit.as_slice()
    }
}

impl MastNodeErrorContext for ExternalNode {
    open spec fn decorator_ids(&self) -> Seq<DecoratorId> {
        self@.before_enter + self@.after_exit
    }

    fn decorators(&self) -> (r: Vec<DecoratedOpLink>) {
        enumerate_decorators(self.before_enter.as_slice(), self.after_exit.as_slice())
    }
}

/// Builder for external nodes with decorators.
pub struct ExternalNodeBuilder {
    digest: Word,
    before_enter: Vec<DecoratorId>,
    after_exit: Vec<DecoratorId>,
}

impl View for ExternalNodeBuilder {
    type V = ExternalNodeView;

    closed spec fn view(&self) -> ExternalNodeView {
        ExternalNodeView {
            digest: self.digest@,
            before_enter: self.before_enter@,
            after_exit: self.after_exit@,
        }
    }
}

impl ExternalNodeBuilder {
    /// A builder for an external node standing for the procedure with the given digest.
    pub fn new(digest: Word) -> (b: Self)
        ensures
            b@ == (ExternalNodeView {
                digest: digest@,
                before_enter: Seq::empty(),
                after_exit: Seq::empty(),
            }),
    {
        ExternalNodeBuilder { digest, before_enter: Vec::new(), after_exit: Vec::new() }
    }

    /// Sets the decorators to be run before the node.
    pub fn with_before_enter(self, decorators: Vec<DecoratorId>) -> (b: Self)
        ensures
            b@ == (ExternalNodeView { before_enter: decorators@, ..self@ }),
    {
        ExternalNodeBuilder { before_enter: decorators, ..self }
    }

    /// Sets the decorators to be run after the node.
    pub fn with_after_exit(self, decorators: Vec<DecoratorId>) -> (b: Self)
        ensures
            b@ == (ExternalNodeView { after_exit: decorators@, ..self@ }),
    {
        ExternalNodeBuilder { after_exit: decorators, ..self }
    }

    /// The same builder: an external node has no children to move.
    pub fn remap_children(self, _remapping: &BTreeMap<u32, MastNodeId>) -> (b: Self)
        ensures
            b@ == self@,
    {
        self
    }

    /// Builds the external node; it needs no forest.
    pub fn build(self) -> (node: ExternalNode)
        ensures
            node@ == self@,
    {
        ExternalNode {
            digest: self.digest,
            before_enter: self.before_enter,
            after_exit: self.after_exit,
        }
    }
}

impl ExternalNodeBuilder {
    /// The fingerprint of the node this builder makes, computed from the builder itself: the
    /// decorators' fingerprints (by id), the known node fingerprints (by node id; an external
    /// node has no children, so none is read), the decorators and the digest.
    pub fn fingerprint_for_node(
        &self,
        decorator_fingerprints: &[DecoratorFingerprint],
        hash_by_node_id: &[MastNodeFingerprint],
    ) -> (r: Result<MastNodeFingerprint, MastForestError>)
        requires
            ids_below(self@.before_enter, decorator_fingerprints@.len()),
            ids_below(self@.after_exit, decorator_fingerprints@.len()),
        ensures
            ({
                let expected = fingerprint_of(
                    fingerprint_seqs(decorator_fingerprints@),
                    fingerprint_views(hash_by_node_id@),
                    self@.before_enter,
                    self@.after_exit,
                    Seq::empty(),
                    self@.digest,
                );
                match r {
                    Ok(f) => expected == Ok::<MastNodeFingerprintView, MastForestError>(f@),
                    Err(e) => expected == Err::<MastNodeFingerprintView, MastForestError>(e),
                }
            }),
    {
        let children: [MastNodeId; 0] = [];
        proof {
            assert(children@ =~= Seq::<MastNodeId>::empty());
        }
        fingerprint_from_parts(
            decorator_fingerprints,
            hash_by_node_id,
            self.before_enter.as_slice(),
            self.after_exit.as_slice(),
            &children,
            self.digest,
        )
    }
}

impl MastForestContributor for ExternalNodeBuilder {
    open spec fn built(&self, forest: Seq<MastNodeView>) -> Result<MastNodeView, MastForestError> {
        Ok(MastNodeView::External(self@))
    }

    fn add_to_forest(self, forest: &mut MastForest) -> (r: Result<MastNodeId, MastForestError>) {
        forest.push_node(MastNode::External(self.build()))
    }
}

/// Bounds for generating external node builders: at most `max_decorators` decorators on each
/// side, with ids up to `max_decorator_id_u32`.
#[derive(Clone, Copy, Debug)]
pub struct ExternalNodeBuilderParams {
    pub max_decorators: usize,
    pub max_decorator_id_u32: u32,
}

impl Default for ExternalNodeBuilderParams {
    fn default() -> (p: Self)
        ensures
            p.max_decorators == 4,
            p.max_decorator_id_u32 == 10,
    {
        ExternalNodeBuilderParams { max_decorators: 4, max_decorator_id_u32: 10 }
    }
}

} // verus!
