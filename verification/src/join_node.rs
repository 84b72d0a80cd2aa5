//! Join nodes, which run their first child and then their second, and their builder.
use vstd::prelude::*;

use std::collections::BTreeMap;

use crate::debuginfo::DecoratedOpLink;
use crate::ids::{DecoratorId, MastNodeId, remapped};
use crate::mast_forest::{
    MastForest, MastForestContributor, MastForestError, MastNode, MastNodeErrorContext,
    MastNodeView, OPCODE_JOIN, Word, copy_ids, enumerate_decorators, extend_ids, merge_in_domain,
    rpo_merge_in_domain,
};

verus! {

/// The model of a join node.
pub ghost struct JoinNodeView {
    pub first: MastNodeId,
    pub second: MastNodeId,
    pub digest: Seq<u64>,
    pub before_enter: Seq<DecoratorId>,
    pub after_exit: Seq<DecoratorId>,
}

/// A node that runs its first child, then its second.
pub struct JoinNode {
    children: [MastNodeId; 2],
    digest: Word,
    before_enter: Vec<DecoratorId>,
    after_exit: Vec<DecoratorId>,
}

impl View for JoinNode {
    type V = JoinNodeView;

    closed spec fn view(&self) -> JoinNodeView {
        JoinNodeView {
            first: self.children[0],
            second: self.children[1],
            digest: self.digest@,
            before_enter: self.before_enter@,
            after_exit: self.after_exit@,
        }
    }
}

impl JoinNode {
    /// A join node of the given children without decorators, built against the forest that
    /// holds them.
    pub fn new(children: [MastNodeId; 2], mast_forest: &MastForest) -> (r: Result<
        JoinNode,
        MastForestError,
    >)
        ensures
            ({
                let b = JoinNodeBuilderView {
                    first: children[0],
                    second: children[1],
                    before_enter: Seq::empty(),
                    after_exit: Seq::empty(),
                };
                match r {
                    Ok(node) => join_built(b, mast_forest@) == Ok::<JoinNodeView, MastForestError>(
                        node@,
                    ),
                    Err(e) => join_built(b, mast_forest@) == Err::<JoinNodeView, MastForestError>(e),
                }
            }),
    {
        JoinNodeBuilder::new(children).build(mast_forest)
    }

    /// A join node with the given children and digest, taken as they are (for trusted sources
    /// such as deserialization).
    pub fn new_unsafe(children: [MastNodeId; 2], digest: Word) -> (node: JoinNode)
        ensures
            node@ == (JoinNodeView {
                first: children[0],
                second: children[1],
                digest: digest@,
                before_enter: Seq::empty(),
                after_exit: Seq::empty(),
            }),
    {
        JoinNode { children, digest, before_enter: Vec::new(), after_exit: Vec::new() }
    }

    /// The id of the node that runs first.
    pub fn first(&self) -> (r: MastNodeId)
        ensures
            r == self@.first,
    {
        self.children[0]
    }

    /// The id of the node that runs once the first has completed.
    pub fn second(&self) -> (r: MastNodeId)
        ensures
            r == self@.second,
    {
        self.children[1]
    }

    /// The commitment to this node: its children's digests merged in the join domain.
    pub fn digest(&self) -> (r: Word)
        ensures
            r@ == self@.digest,
    {
        self.digest
    }

    /// The decorators run before this node.
    pub fn before_enter(&self) -> (r: &[DecoratorId])
        ensures
            r@ == self@.before_enter,
    {
        self.before_enter.as_slice()
    }

    /// The decorators run after this node.
    pub fn after_exit(&self) -> (r: &[DecoratorId])
        ensures
            r@ == self@.after_exit,
    {
        self.after_exit.as_slice()
    }

    /// Whether this node has children: a join node always has two.
    pub fn has_children(&self) -> (r: bool)
        ensures
            r,
    {
        true
    }

    /// Appends the ids of the children, first then second, to `target`.
    pub fn append_children_to(&self, target: &mut Vec<MastNodeId>)
        ensures
            final(target)@ == old(target)@.push(self@.first).push(self@.second),
    {
        target.push(self.children[0]);
        target.push(self.children[1]);
    }

    /// The same node with its children moved to where `remapping` (keyed by node index) sends
    /// them; the digest and the decorators are kept.
    pub fn remap_children(&self, remapping: &BTreeMap<u32, MastNodeId>) -> (r: Self)
        ensures
            r@ == (JoinNodeView {
                first: remapped(self@.first, remapping@),
                second: remapped(self@.second, remapping@),
                ..self@
            }),
    {
        JoinNode {
            children: [self.children[0].remap(remapping), self.children[1].remap(remapping)],
            digest: self.digest,
            before_enter: copy_ids(self.before_enter.as_slice()),
            after_exit: copy_ids(self.after_exit.as_slice()),
        }
    }

    /// Appends decorators to be run before this node.
    pub fn append_before_enter(&mut self, decorator_ids: &[DecoratorId])
        ensures
            final(self)@ == (JoinNodeView {
                before_enter: old(self)@.before_enter + decorator_ids@,
                ..old(self)@
            }),
    {
        extend_ids(&mut self.before_enter, decorator_ids);
    }

    /// Appends decorators to be run after this node.
    pub fn append_after_exit(&mut self, decorator_ids: &[DecoratorId])
        ensures
            final(self)@ == (JoinNodeView {
                after_exit: old(self)@.after_exit + decorator_ids@,
                ..old(self)@
            }),
    {
        extend_ids(&mut self.after_exit, decorator_ids);
    }

    /// Removes all decorators of this node.
    pub fn remove_decorators(&mut self)
        ensures
            final(self)@ == (JoinNodeView {
                before_enter: Seq::empty(),
                after_exit: Seq::empty(),
                ..old(self)@
            }),
    {
        self.before_enter.truncate(0);
        self.after_exit.truncate(0);
        proof {
            assert(self.before_enter@ =~= Seq::<DecoratorId>::empty());
            assert(self.after_exit@ =~= Seq::<DecoratorId>::empty());
        }
    }

    /// The builder that makes this node again: same children, same decorators.
    pub fn to_builder(self) -> (b: JoinNodeBuilder)
        ensures
            b@ == builder_of_join(self@),
    {
        JoinNodeBuilder {
            children: self.children,
            before_enter: self.before_enter,
            after_exit: self.after_exit,
        }
    }

    /// The hashing domain of join nodes.
    pub fn domain(&self) -> (r: u64)
        ensures
            r == OPCODE_JOIN as u64,
    {
        OPCODE_JOIN as u64
    }
}

impl MastNodeErrorContext for JoinNode {
    open spec fn decorator_ids(&self) -> Seq<DecoratorId> {
        self@.before_enter + self@.after_exit
    }

    fn decorators(&self) -> (r: Vec<DecoratedOpLink>) {
        enumerate_decorators(self.before_enter.as_slice(), self.after_exit.as_slice())
    }
}

/// The model of a join node builder.
pub ghost struct JoinNodeBuilderView {
    pub first: MastNodeId,
    pub second: MastNodeId,
    pub before_enter: Seq<DecoratorId>,
    pub after_exit: Seq<DecoratorId>,
}

/// The join node that `b` builds against `forest`: each child must be a node of the forest
/// (the first is checked first), and the digest merges the children's digests in the join
/// domain.
pub open spec fn join_built(b: JoinNodeBuilderView, forest: Seq<MastNodeView>) -> Result<
    JoinNodeView,
    MastForestError,
> {
    if b.first.index() >= forest.len() {
        Err(MastForestError::NodeIdOverflow(b.first, forest.len() as usize))
    } else if b.second.index() >= forest.len() {
        Err(MastForestError::NodeIdOverflow(b.second, forest.len() as usize))
    } else {
        Ok(
            JoinNodeView {
                first: b.first,
                second: b.second,
                digest: rpo_merge_in_domain(
                    forest[b.first.index() as int].digest(),
                    forest[b.second.index() as int].digest(),
                    OPCODE_JOIN as u64,
                ),
                before_enter: b.before_enter,
                after_exit: b.after_exit,
            },
        )
    }
}

/// The builder of a join node's children and decorators.
pub open spec fn builder_of_join(n: JoinNodeView) -> JoinNodeBuilderView {
    JoinNodeBuilderView {
        first: n.first,
        second: n.second,
        before_enter: n.before_enter,
        after_exit: n.after_exit,
    }
}

/// A join node built against a forest is built again, the same, by its own builder against
/// that forest.
pub proof fn lemma_join_round_trip(b: JoinNodeBuilderView, forest: Seq<MastNodeView>)
    requires
        join_built(b, forest) is Ok,
    ensures
        join_built(builder_of_join(join_built(b, forest)->Ok_0), forest) == join_built(b, forest),
{
}

/// Builder for join nodes with decorators.
pub struct JoinNodeBuilder {
    children: [MastNodeId; 2],
    before_enter: Vec<DecoratorId>,
    after_exit: Vec<DecoratorId>,
}

impl View for JoinNodeBuilder {
    type V = JoinNodeBuilderView;

    closed spec fn view(&self) -> JoinNodeBuilderView {
        JoinNodeBuilderView {
            first: self.children[0],
            second: self.children[1],
            before_enter: self.before_enter@,
            after_exit: self.after_exit@,
        }
    }
}

impl JoinNodeBuilder {
    /// A builder for a join node with the given children and no decorators.
    pub fn new(children: [MastNodeId; 2]) -> (b: Self)
        ensures
            b@ == (JoinNodeBuilderView {
                first: children[0],
                second: children[1],
                before_enter: Seq::empty(),
                after_exit: Seq::empty(),
            }),
    {
        JoinNodeBuilder { children, before_enter: Vec::new(), after_exit: Vec::new() }
    }

    /// Sets the decorators to be run before the node.
    pub fn with_before_enter(self, decorators: Vec<DecoratorId>) -> (b: Self)
        ensures
            b@ == (JoinNodeBuilderView { before_enter: decorators@, ..self@ }),
    {
        JoinNodeBuilder { before_enter: decorators, ..self }
    }

    /// Sets the decorators to be run after the node.
    pub fn with_after_exit(self, decorators: Vec<DecoratorId>) -> (b: Self)
        ensures
            b@ == (JoinNodeBuilderView { after_exit: decorators@, ..self@ }),
    {
        JoinNodeBuilder { after_exit: decorators, ..self }
    }

    /// Builds the join node against the forest that holds its children.
    pub fn build(self, mast_forest: &MastForest) -> (r: Result<JoinNode, MastForestError>)
        ensures
            match r {
                Ok(node) => join_built(self@, mast_forest@) == Ok::<
                    JoinNodeView,
                    MastForestError,
                >(node@),
                Err(e) => join_built(self@, mast_forest@) == Err::<JoinNodeView, MastForestError>(
                    e,
                ),
            },
    {
        let forest_len = mast_forest.num_nodes();
        if self.children[0].to_usize() >= forest_len {
            return Err(MastForestError::NodeIdOverflow(self.children[0], forest_len));
        } else if self.children[1].to_usize() >= forest_len {
            return Err(MastForestError::NodeIdOverflow(self.children[1], forest_len));
        }
        let left = mast_forest.node_digest(self.children[0]);
        let right = mast_forest.node_digest(self.children[1]);
        let digest = merge_in_domain(&[left, right], OPCODE_JOIN as u64);
        let node = JoinNode {
            children: self.children,
            digest,
            before_enter: self.before_enter,
            after_exit: self.after_exit,
        };
        proof {
            assert(node@ == join_built(self@, mast_forest@)->Ok_0);
        }
        Ok(node)
    }
}

impl MastForestContributor for JoinNodeBuilder {
    open spec fn built(&self, forest: Seq<MastNodeView>) -> Result<MastNodeView, MastForestError> {
        match join_built(self@, forest) {
            Ok(n) => Ok(MastNodeView::Join(n)),
            Err(e) => Err(e),
        }
    }

    fn add_to_forest(self, forest: &mut MastForest) -> (r: Result<MastNodeId, MastForestError>) {
        match self.build(forest) {
            Ok(node) => forest.push_node(MastNode::Join(node)),
            Err(e) => Err(e),
        }
    }
}

} // verus!
