//! Loop nodes, which run their body while the top of the stack is `1`, and their builder.
use vstd::prelude::*;

use std::collections::BTreeMap;

use crate::debuginfo::DecoratedOpLink;
use crate::ids::{DecoratorId, MastNodeId, remapped};
use crate::mast_forest::{
    MastForest, MastForestContributor, MastForestError, MastNode, MastNodeErrorContext,
    MastNodeView, OPCODE_LOOP, Word, copy_ids, enumerate_decorators, extend_ids, merge_in_domain,
    rpo_merge_in_domain, zero_word,
};

verus! {

/// The model of a loop node.
pub ghost struct LoopNodeView {
    pub body: MastNodeId,
    pub digest: Seq<u64>,
    pub before_enter: Seq<DecoratorId>,
    pub after_exit: Seq<DecoratorId>,
}

/// A node that runs its body as long as the top of the stack is `1` when the condition is
/// checked, and leaves when it is `0`.
pub struct LoopNode {
    body: MastNodeId,
    digest: Word,
    before_enter: Vec<DecoratorId>,
    after_exit: Vec<DecoratorId>,
}

impl View for LoopNode {
    type V = LoopNodeView;

    closed spec fn view(&self) -> LoopNodeView {
        LoopNodeView {
            body: self.body,
            digest: self.digest@,
            before_enter: self.before_enter@,
            after_exit: self.after_exit@,
        }
    }
}

impl LoopNode {
    /// A loop node of the given body without decorators, built against the forest that holds
    /// it.
    pub fn new(body: MastNodeId, mast_forest: &MastForest) -> (r: Result<LoopNode, MastForestError>)
        ensures
            ({
                let b = LoopNodeBuilderView {
                    body,
                    before_enter: Seq::empty(),
                    after_exit: Seq::empty(),
                };
                match r {
                    Ok(node) => loop_built(b, mast_forest@) == Ok::<LoopNodeView, MastForestError>(
                        node@,
                    ),
                    Err(e) => loop_built(b, mast_forest@) == Err::<LoopNodeView, MastForestError>(e),
                }
            }),
    {
        LoopNodeBuilder::new(body).build(mast_forest)
    }

    /// A loop node with the given body and digest, taken as they are (for trusted sources such
    /// as deserialization).
    pub fn new_unsafe(body: MastNodeId, digest: Word) -> (node: LoopNode)
        ensures
            node@ == (LoopNodeView {
                body,
                digest: digest@,
                before_enter: Seq::empty(),
                after_exit: Seq::empty(),
            }),
    {
        LoopNode { body, digest, before_enter: Vec::new(), after_exit: Vec::new() }
    }

    /// The id of the node that is the body of the loop.
    pub fn body(&self) -> (r: MastNodeId)
        ensures
            r == self@.body,
    {
        self.body
    }

    /// The commitment to this node: the body's digest and the zero word merged in the loop
    /// domain.
    pub fn digest(&self) -> (r: Word)
        ensures
            r@ == self@.digest,
    {
        self.digest
    }

    /// The decorators run before this node.
    pub fn before_enter(&self) -> (r: &[DecoratorId])
        ensures
            r@ == self@.before_enter,
    {
        self.before_enter.as_slice()
    }

    /// The decorators run after this node.
    pub fn after_exit(&self) -> (r: &[DecoratorId])
        ensures
            r@ == self@.after_exit,
    {
        self.after_exit.as_slice()
    }

    /// Whether this node has children: a loop node always has its body.
    pub fn has_children(&self) -> (r: bool)
        ensures
            r,
    {
        true
    }

    /// Appends the id of the body to `target`.
    pub fn append_children_to(&self, target: &mut Vec<MastNodeId>)
        ensures
            final(target)@ == old(target)@.push(self@.body),
    {
        target.push(self.body);
    }

    /// The same node with its body moved to where `remapping` (keyed by node index) sends it;
    /// the digest and the decorators are kept.
    pub fn remap_children(&self, remapping: &BTreeMap<u32, MastNodeId>) -> (r: Self)
        ensures
            r@ == (LoopNodeView { body: remapped(self@.body, remapping@), ..self@ }),
    {
        LoopNode {
            body: self.body.remap(remapping),
            digest: self.digest,
            before_enter: copy_ids(self.before_enter.as_slice()),
            after_exit: copy_ids(self.after_exit.as_slice()),
        }
    }

    /// Appends decorators to be run before this node.
    pub fn append_before_enter(&mut self, decorator_ids: &[DecoratorId])
        ensures
            final(self)@ == (LoopNodeView {
                before_enter: old(self)@.before_enter + decorator_ids@,
                ..old(self)@
            }),
    {
        extend_ids(&mut self.before_enter, decorator_ids);
    }

    /// Appends decorators to be run after this node.
    pub fn append_after_exit(&mut self, decorator_ids: &[DecoratorId])
        ensures
            final(self)@ == (LoopNodeView {
                after_exit: old(self)@.after_exit + decorator_ids@,
                ..old(self)@
            }),
    {
        extend_ids(&mut self.after_exit, decorator_ids);
    }

    /// Removes all decorators of this node.
    pub fn remove_decorators(&mut self)
        ensures
            final(self)@ == (LoopNodeView {
                before_enter: Seq::empty(),
                after_exit: Seq::empty(),
                ..old(self)@
            }),
    {
        self.before_enter.truncate(0);
        self.after_exit.truncate(0);
        proof {
            assert(self.before_enter@ =~= Seq::<DecoratorId>::empty());
            assert(self.after_exit@ =~= Seq::<DecoratorId>::empty());
        }
    }

    /// The builder that makes this node again: same body, same decorators.
    pub fn to_builder(self) -> (b: LoopNodeBuilder)
        ensures
            b@ == builder_of_loop(self@),
    {
        LoopNodeBuilder { body: self.body, before_enter: self.before_enter, after_exit: self.after_exit }
    }

    /// The hashing domain of loop nodes.
    pub fn domain(&self) -> (r: u64)
        ensures
            r == OPCODE_LOOP as u64,
    {
        OPCODE_LOOP as u64
    }
}

impl MastNodeErrorContext for LoopNode {
    open spec fn decorator_ids(&self) -> Seq<DecoratorId> {
        self@.before_enter + self@.after_exit
    }

    fn decorators(&self) -> (r: Vec<DecoratedOpLink>) {
        enumerate_decorators(self.before_enter.as_slice(), self.after_exit.as_slice())
    }
}

/// The model of a loop node builder.
pub ghost struct LoopNodeBuilderView {
    pub body: MastNodeId,
    pub before_enter: Seq<DecoratorId>,
    pub after_exit: Seq<DecoratorId>,
}

/// The loop node that `b` builds against `forest`: the body must be a node of the forest, and
/// the digest merges the body's digest with the zero word in the loop domain.
pub open spec fn loop_built(b: LoopNodeBuilderView, forest: Seq<MastNodeView>) -> Result<
    LoopNodeView,
    MastForestError,
> {
    if b.body.index() >= forest.len() {
        Err(MastForestError::NodeIdOverflow(b.body, forest.len() as usize))
    } else {
        Ok(
            LoopNodeView {
                body: b.body,
                digest: rpo_merge_in_domain(
                    forest[b.body.index() as int].digest(),
                    zero_word(),
                    OPCODE_LOOP as u64,
                ),
                before_enter: b.before_enter,
                after_exit: b.after_exit,
            },
        )
    }
}

/// The builder of a loop node's body and decorators.
pub open spec fn builder_of_loop(n: LoopNodeView) -> LoopNodeBuilderView {
    LoopNodeBuilderView { body: n.body, before_enter: n.before_enter, after_exit: n.after_exit }
}

/// A loop node built against a forest is built again, the same, by its own builder against
/// that forest.
pub proof fn lemma_loop_round_trip(b: LoopNodeBuilderView, forest: Seq<MastNodeView>)
    requires
        loop_built(b, forest) is Ok,
    ensures
        loop_built(builder_of_loop(loop_built(b, forest)->Ok_0), forest) == loop_built(b, forest),
{
}

/// Builder for loop nodes with decorators.
pub struct LoopNodeBuilder {
    body: MastNodeId,
    before_enter: Vec<DecoratorId>,
    after_exit: Vec<DecoratorId>,
}

impl View for LoopNodeBuilder {
    type V = LoopNodeBuilderView;

    closed spec fn view(&self) -> LoopNodeBuilderView {
        LoopNodeBuilderView {
            body: self.body,
            before_enter: self.before_enter@,
            after_exit: self.after_exit@,
        }
    }
}

impl LoopNodeBuilder {
    /// A builder for a loop node with the given body and no decorators.
    pub fn new(body: MastNodeId) -> (b: Self)
        ensures
            b@ == (LoopNodeBuilderView {
                body,
                before_enter: Seq::empty(),
                after_exit: Seq::empty(),
            }),
    {
        LoopNodeBuilder { body, before_enter: Vec::new(), after_exit: Vec::new() }
    }

    /// Sets the decorators to be run before the node.
    pub fn with_before_enter(self, decorators: Vec<DecoratorId>) -> (b: Self)
        ensures
            b@ == (LoopNodeBuilderView { before_enter: decorators@, ..self@ }),
    {
        LoopNodeBuilder { before_enter: decorators, ..self }
    }

    /// Sets the decorators to be run after the node.
    pub fn with_after_exit(self, decorators: Vec<DecoratorId>) -> (b: Self)
        ensures
            b@ == (LoopNodeBuilderView { after_exit: decorators@, ..self@ }),
    {
        LoopNodeBuilder { after_exit: decorators, ..self }
    }

    /// Builds the loop node against the forest that holds its body.
    pub fn build(self, mast_forest: &MastForest) -> (r: Result<LoopNode, MastForestError>)
        ensures
            match r {
                Ok(node) => loop_built(self@, mast_forest@) == Ok::<
                    LoopNodeView,
                    MastForestError,
                >(node@),
                Err(e) => loop_built(self@, mast_forest@) == Err::<LoopNodeView, MastForestError>(
                    e,
                ),
            },
    {
        let forest_len = mast_forest.num_nodes();
        if self.body.to_usize() >= forest_len {
            return Err(MastForestError::NodeIdOverflow(self.body, forest_len));
        }
        let body_hash = mast_forest.node_digest(self.body);
        let zero: Word = [0, 0, 0, 0];
        let digest = merge_in_domain(&[body_hash, zero], OPCODE_LOOP as u64);
        proof {
            assert(zero@ =~= zero_word());
        }
        let node = LoopNode {
            body: self.body,
            digest,
            before_enter: self.before_enter,
            after_exit: self.after_exit,
        };
        proof {
            assert(node@ == loop_built(self@, mast_forest@)->Ok_0);
        }
        Ok(node)
    }
}

impl MastForestContributor for LoopNodeBuilder {
    open spec fn built(&self, forest: Seq<MastNodeView>) -> Result<MastNodeView, MastForestError> {
        match loop_built(self@, forest) {
            Ok(n) => Ok(MastNodeView::Loop(n)),
            Err(e) => Err(e),
        }
    }

    fn add_to_forest(self, forest: &mut MastForest) -> (r: Result<MastNodeId, MastForestError>) {
        match self.build(forest) {
            Ok(node) => forest.push_node(MastNode::Loop(node)),
            Err(e) => Err(e),
        }
    }
}

} // verus!
