//! The forest of control-flow nodes, the hash that commits to a node from its children, and the
//! contracts shared by all node kinds and their builders.
use vstd::prelude::*;

use miden_crypto::hash::rpo::Rpo256;
use miden_crypto::Felt;

use std::collections::BTreeMap;

use crate::call_node::{
    call_domain, CallNode, CallNodeBuilder, CallNodeBuilderView, CallNodeView, builder_of_call, call_built,
};
use crate::debuginfo::DecoratedOpLink;
use crate::external_node::{ExternalNode, ExternalNodeBuilder, ExternalNodeView};
use crate::ids::{DecoratorId, MastNodeId, remapped};
use crate::join_node::{
    JoinNode, JoinNodeBuilder, JoinNodeBuilderView, JoinNodeView, builder_of_join, join_built,
};
use crate::loop_node::{
    LoopNode, LoopNodeBuilder, LoopNodeBuilderView, LoopNodeView, builder_of_loop, loop_built,
};

verus! {

/// A digest: four field elements, each held as its canonical `u64` value.
pub type Word = [u64; 4];

/// The opcode of a join block, which is also its hashing domain.
pub const OPCODE_JOIN: u8 = 0b0101_0111;

/// The opcode of a loop block, which is also its hashing domain.
pub const OPCODE_LOOP: u8 = 0b0101_0101;

/// The opcode of a syscall block, which is also its hashing domain.
pub const OPCODE_SYSCALL: u8 = 0b0110_1000;

/// The opcode of a call block, which is also its hashing domain.
pub const OPCODE_CALL: u8 = 0b0110_1100;

/// The digest that RPO-256 gives to two digests merged in a domain (the digests and the domain
/// taken as `u64` values, each standing for the field element it reduces to).
pub uninterp spec fn rpo_merge_in_domain(left: Seq<u64>, right: Seq<u64>, domain: u64) -> Seq<u64>;

/// Hashes two digests in a domain with `miden_crypto::hash::rpo::Rpo256::merge_in_domain`.
///
/// Trusted: the result is the canonical form of what `Rpo256::merge_in_domain` returns on the
/// words and the domain element made from these `u64` values by `Felt::new`; nothing more is
/// claimed of it than that it is that function of the arguments.
#[verifier::external_body]
pub(crate) fn merge_in_domain(values: &[Word; 2], domain: u64) -> (r: Word)
    ensures
        r@ == rpo_merge_in_domain(values[0]@, values[1]@, domain),
{
    let left = miden_crypto::Word::new(values[0].map(Felt::new));
    let right = miden_crypto::Word::new(values[1].map(Felt::new));
    Rpo256::merge_in_domain(&[left, right], Felt::new(domain)).into()
}

/// The all-zero digest (the default `Word`).
pub open spec fn zero_word() -> Seq<u64> {
    seq![0u64, 0u64, 0u64, 0u64]
}

/// Errors of building a node against a forest or adding it to the forest.
#[derive(Clone, Copy, Debug, PartialEq, Eq)]
pub enum MastForestError {
    /// A child id is not below the number of nodes of the forest (the id, that number).
    NodeIdOverflow(MastNodeId, usize),
    /// The forest already holds as many nodes as node ids can name.
    TooManyNodes,
    /// A child's fingerprint is not known (the child's id).
    ChildFingerprintMissing(MastNodeId),
    /// A decorator id has no new id in a decorator mapping (the id, the mapping's size).
    DecoratorIdOverflow(DecoratorId, usize),
    /// The forest already holds as many decorators as decorator ids can name.
    TooManyDecorators,
    /// Two merged forests map the same advice key to different values (the key).
    AdviceMapKeyCollisionOnMerge(Word),
}

/// The links of a node's decorators: the `i`-th decorator paired with `i`.
pub open spec fn enumerated(ids: Seq<DecoratorId>) -> Seq<DecoratedOpLink> {
    Seq::new(ids.len(), |i: int| (i as usize, ids[i]))
}

/// Makes the links of `before_enter` followed by `after_exit`.
pub(crate) fn enumerate_decorators(before_enter: &[DecoratorId], after_exit: &[DecoratorId]) -> (r:
    Vec<DecoratedOpLink>)
    requires
        before_enter@.len() + after_exit@.len() <= usize::MAX,
    ensures
        r@ == enumerated(before_enter@ + after_exit@),
{
    let ghost all = before_enter@ + after_exit@;
    let mut r: Vec<DecoratedOpLink> = Vec::new();
    let mut i: usize = 0;
    while i < before_enter.len()
        invariant
            i <= before_enter@.len(),
            all == before_enter@ + after_exit@,
            r@ == enumerated(all).take(i as int),
        decreases before_enter@.len() - i,
    {
        r.push((i, before_enter[i]));
        proof {
            assert(r@ =~= enumerated(all).take(i + 1));
        }
        i = i + 1;
    }
    let mut j: usize = 0;
    while j < after_exit.len()
        invariant
            j <= after_exit@.len(),
            before_enter@.len() + after_exit@.len() <= usize::MAX,
            all == before_enter@ + after_exit@,
            r@ == enumerated(all).take(before_enter@.len() + j),
        decreases after_exit@.len() - j,
    {
        let k = before_enter.len() + j;
        r.push((k, after_exit[j]));
        proof {
            assert(r@ =~= enumerated(all).take(before_enter@.len() + j + 1));
        }
        j = j + 1;
    }
    proof {
        assert(r@ =~= enumerated(all));
    }
    r
}

/// Appends `ids` to `v`.
pub(crate) fn extend_ids(v: &mut Vec<DecoratorId>, ids: &[DecoratorId])
    ensures
        final(v)@ == old(v)@ + ids@,
{
    let ghost start = v@;
    let mut i: usize = 0;
    while i < ids.len()
        invariant
            i <= ids@.len(),
            v@ == start + ids@.take(i as int),
        decreases ids@.len() - i,
    {
        v.push(ids[i]);
        proof {
            assert(ids@.take(i + 1) =~= ids@.take(i as int).push(ids@[i as int]));
        }
        i = i + 1;
    }
    proof {
        assert(ids@.take(ids@.len() as int) =~= ids@);
    }
}

/// A new vector holding `ids`.
pub(crate) fn copy_ids(ids: &[DecoratorId]) -> (v: Vec<DecoratorId>)
    ensures
        v@ == ids@,
{
    let mut v: Vec<DecoratorId> = Vec::new();
    extend_ids(&mut v, ids);
    proof {
        assert(v@ =~= ids@);
    }
    v
}

/// The nodes whose decorators can be listed with their positions.
pub trait MastNodeErrorContext {
    /// The decorators of the node: those run before it, then those run after it.
    spec fn decorator_ids(&self) -> Seq<DecoratorId>;

    /// The list of decorators tied to this node, each with its index in that list.
    fn decorators(&self) -> (r: Vec<DecoratedOpLink>)
        requires
            self.decorator_ids().len() <= usize::MAX,
        ensures
            r@ == enumerated(self.decorator_ids()),
    ;
}

/// The model of a node of the forest.
pub enum MastNodeView {
    Join(JoinNodeView),
    Loop(LoopNodeView),
    Call(CallNodeView),
    External(ExternalNodeView),
}

impl MastNodeView {
    /// The ids of the children of the node, in order.
    pub open spec fn children(self) -> Seq<MastNodeId> {
        match self {
            MastNodeView::Join(n) => seq![n.first, n.second],
            MastNodeView::Loop(n) => seq![n.body],
            MastNodeView::Call(n) => seq![n.callee],
            MastNodeView::External(_) => Seq::empty(),
        }
    }

    /// The decorators run before the node.
    pub open spec fn before_enter(self) -> Seq<DecoratorId> {
        match self {
            MastNodeView::Join(n) => n.before_enter,
            MastNodeView::Loop(n) => n.before_enter,
            MastNodeView::Call(n) => n.before_enter,
            MastNodeView::External(n) => n.before_enter,
        }
    }

    /// The decorators run after the node.
    pub open spec fn after_exit(self) -> Seq<DecoratorId> {
        match self {
            MastNodeView::Join(n) => n.after_exit,
            MastNodeView::Loop(n) => n.after_exit,
            MastNodeView::Call(n) => n.after_exit,
            MastNodeView::External(n) => n.after_exit,
        }
    }

    /// The same node with the given decorators.
    pub open spec fn with_decorators(self, before: Seq<DecoratorId>, after: Seq<DecoratorId>) -> Self {
        match self {
            MastNodeView::Join(n) => MastNodeView::Join(
                JoinNodeView { before_enter: before, after_exit: after, ..n },
            ),
            MastNodeView::Loop(n) => MastNodeView::Loop(
                LoopNodeView { before_enter: before, after_exit: after, ..n },
            ),
            MastNodeView::Call(n) => MastNodeView::Call(
                CallNodeView { before_enter: before, after_exit: after, ..n },
            ),
            MastNodeView::External(n) => MastNodeView::External(
                ExternalNodeView { before_enter: before, after_exit: after, ..n },
            ),
        }
    }

    /// The same node with its children moved by `remapping`.
    pub open spec fn remapped_children(self, remapping: Map<u32, MastNodeId>) -> Self {
        match self {
            MastNodeView::Join(n) => MastNodeView::Join(
                JoinNodeView {
                    first: remapped(n.first, remapping),
                    second: remapped(n.second, remapping),
                    ..n
                },
            ),
            MastNodeView::Loop(n) => MastNodeView::Loop(
                LoopNodeView { body: remapped(n.body, remapping), ..n },
            ),
            MastNodeView::Call(n) => MastNodeView::Call(
                CallNodeView { callee: remapped(n.callee, remapping), ..n },
            ),
            MastNodeView::External(n) => MastNodeView::External(n),
        }
    }

    /// The builder of the node's children and decorators.
    pub open spec fn builder(self) -> MastNodeBuilderView {
        match self {
            MastNodeView::Join(n) => MastNodeBuilderView::Join(builder_of_join(n)),
            MastNodeView::Loop(n) => MastNodeBuilderView::Loop(builder_of_loop(n)),
            MastNodeView::Call(n) => MastNodeBuilderView::Call(builder_of_call(n)),
            MastNodeView::External(n) => MastNodeBuilderView::External(n),
        }
    }

    /// The digest of the node.
    pub open spec fn digest(self) -> Seq<u64> {
        match self {
            MastNodeView::Join(n) => n.digest,
            MastNodeView::Loop(n) => n.digest,
            MastNodeView::Call(n) => n.digest,
            MastNodeView::External(n) => n.digest,
        }
    }
}

/// A node of the forest.
pub enum MastNode {
    Join(JoinNode),
    Loop(LoopNode),
    Call(CallNode),
    External(ExternalNode),
}

impl View for MastNode {
    type V = MastNodeView;

    open spec fn view(&self) -> MastNodeView {
        match self {
            MastNode::Join(n) => MastNodeView::Join(n@),
            MastNode::Loop(n) => MastNodeView::Loop(n@),
            MastNode::Call(n) => MastNodeView::Call(n@),
            MastNode::External(n) => MastNodeView::External(n@),
        }
    }
}

impl MastNode {
    /// The digest of the node.
    pub fn digest(&self) -> (r: Word)
        ensures
            r@ == self@.digest(),
    {
        match self {
            MastNode::Join(n) => n.digest(),
            MastNode::Loop(n) => n.digest(),
            MastNode::Call(n) => n.digest(),
            MastNode::External(n) => n.digest(),
        }
    }
}

impl MastNode {
    /// Whether this node is an external node.
    pub fn is_external(&self) -> (r: bool)
        ensures
            r == (self@ is External),
    {
        match self {
            MastNode::External(_) => true,
            _ => false,
        }
    }

    /// The join node this node wraps.
    pub fn unwrap_join(&self) -> (r: &JoinNode)
        requires
            self@ is Join,
        ensures
            self@ == MastNodeView::Join(r@),
    {
        match self {
            MastNode::Join(n) => n,
            _ => vstd::pervasive::unreached(),
        }
    }

    /// The loop node this node wraps.
    pub fn unwrap_loop(&self) -> (r: &LoopNode)
        requires
            self@ is Loop,
        ensures
            self@ == MastNodeView::Loop(r@),
    {
        match self {
            MastNode::Loop(n) => n,
            _ => vstd::pervasive::unreached(),
        }
    }

    /// The call node this node wraps.
    pub fn unwrap_call(&self) -> (r: &CallNode)
        requires
            self@ is Call,
        ensures
            self@ == MastNodeView::Call(r@),
    {
        match self {
            MastNode::Call(n) => n,
            _ => vstd::pervasive::unreached(),
        }
    }

    /// The external node this node wraps.
    pub fn unwrap_external(&self) -> (r: &ExternalNode)
        requires
            self@ is External,
        ensures
            self@ == MastNodeView::External(r@),
    {
        match self {
            MastNode::External(n) => n,
            _ => vstd::pervasive::unreached(),
        }
    }

    /// Whether this node has children: every kind but external nodes has.
    pub fn has_children(&self) -> (r: bool)
        ensures
            r == !(self@ is External),
    {
        match self {
            MastNode::Join(n) => n.has_children(),
            MastNode::Loop(n) => n.has_children(),
            MastNode::Call(n) => n.has_children(),
            MastNode::External(n) => n.has_children(),
        }
    }

    /// Appends the ids of the children of this node, in order, to `target`.
    pub fn append_children_to(&self, target: &mut Vec<MastNodeId>)
        ensures
            final(target)@ == old(target)@ + self@.children(),
    {
        match self {
            MastNode::Join(n) => n.append_children_to(target),
            MastNode::Loop(n) => n.append_children_to(target),
            MastNode::Call(n) => n.append_children_to(target),
            MastNode::External(_) => {},
        }
        proof {
            assert(final(target)@ =~= old(target)@ + self@.children());
        }
    }

    /// The decorators run before this node.
    pub fn before_enter(&self) -> (r: &[DecoratorId])
        ensures
            r@ == self@.before_enter(),
    {
        match self {
            MastNode::Join(n) => n.before_enter(),
            MastNode::Loop(n) => n.before_enter(),
            MastNode::Call(n) => n.before_enter(),
            MastNode::External(n) => n.before_enter(),
        }
    }

    /// The decorators run after this node.
    pub fn after_exit(&self) -> (r: &[DecoratorId])
        ensures
            r@ == self@.after_exit(),
    {
        match self {
            MastNode::Join(n) => n.after_exit(),
            MastNode::Loop(n) => n.after_exit(),
            MastNode::Call(n) => n.after_exit(),
            MastNode::External(n) => n.after_exit(),
        }
    }

    /// Appends decorators to be run before this node; nothing else changes.
    pub fn append_before_enter(&mut self, decorator_ids: &[DecoratorId])
        ensures
            final(self)@ == old(self)@.with_decorators(
                old(self)@.before_enter() + decorator_ids@,
                old(self)@.after_exit(),
            ),
    {
        match self {
            MastNode::Join(n) => n.append_before_enter(decorator_ids),
            MastNode::Loop(n) => n.append_before_enter(decorator_ids),
            MastNode::Call(n) => n.append_before_enter(decorator_ids),
            MastNode::External(n) => n.append_before_enter(decorator_ids),
        }
    }

    /// Appends decorators to be run after this node; nothing else changes.
    pub fn append_after_exit(&mut self, decorator_ids: &[DecoratorId])
        ensures
            final(self)@ == old(self)@.with_decorators(
                old(self)@.before_enter(),
                old(self)@.after_exit() + decorator_ids@,
            ),
    {
        match self {
            MastNode::Join(n) => n.append_after_exit(decorator_ids),
            MastNode::Loop(n) => n.append_after_exit(decorator_ids),
            MastNode::Call(n) => n.append_after_exit(decorator_ids),
            MastNode::External(n) => n.append_after_exit(decorator_ids),
        }
    }

    /// Removes all decorators of this node; nothing else changes.
    pub fn remove_decorators(&mut self)
        ensures
            final(self)@ == old(self)@.with_decorators(Seq::empty(), Seq::empty()),
    {
        match self {
            MastNode::Join(n) => n.remove_decorators(),
            MastNode::Loop(n) => n.remove_decorators(),
            MastNode::Call(n) => n.remove_decorators(),
            MastNode::External(n) => n.remove_decorators(),
        }
    }

    /// The hashing domain of this node; external nodes have none.
    pub fn domain(&self) -> (r: u64)
        requires
            !(self@ is External),
        ensures
            r == match self@ {
                MastNodeView::Join(_) => OPCODE_JOIN as u64,
                MastNodeView::Loop(_) => OPCODE_LOOP as u64,
                MastNodeView::Call(c) => call_domain(c.is_syscall),
                MastNodeView::External(_) => 0,
            },
    {
        match self {
            MastNode::Join(n) => n.domain(),
            MastNode::Loop(n) => n.domain(),
            MastNode::Call(n) => n.domain(),
            MastNode::External(_) => vstd::pervasive::unreached(),
        }
    }

    /// The same node with its children moved to where `remapping` (keyed by node index) sends
    /// them; everything else is kept.
    pub fn remap_children(&self, remapping: &BTreeMap<u32, MastNodeId>) -> (r: MastNode)
        ensures
            r@ == self@.remapped_children(remapping@),
    {
        match self {
            MastNode::Join(n) => MastNode::Join(n.remap_children(remapping)),
            MastNode::Loop(n) => MastNode::Loop(n.remap_children(remapping)),
            MastNode::Call(n) => MastNode::Call(n.remap_children(remapping)),
            MastNode::External(n) => MastNode::External(n.remap_children(remapping)),
        }
    }

    /// The builder that makes this node again.
    pub fn to_builder(self) -> (b: MastNodeBuilder)
        ensures
            b@ == self@.builder(),
    {
        match self {
            MastNode::Join(n) => MastNodeBuilder::Join(n.to_builder()),
            MastNode::Loop(n) => MastNodeBuilder::Loop(n.to_builder()),
            MastNode::Call(n) => MastNodeBuilder::Call(n.to_builder()),
            MastNode::External(n) => MastNodeBuilder::External(n.to_builder()),
        }
    }
}

/// A forest of nodes; a node's id is its position.
pub struct MastForest {
    nodes: Vec<MastNode>,
}

impl View for MastForest {
    type V = Seq<MastNodeView>;

    closed spec fn view(&self) -> Seq<MastNodeView> {
        Seq::new(self.nodes@.len(), |i: int| self.nodes@[i]@)
    }
}

/// The number of nodes a forest can hold: as many as `u32` ids can name.
pub open spec fn max_nodes() -> nat {
    u32::MAX as nat
}

/// The forest after pushing `node`: `Ok` with the node's id and the longer forest, or
/// `TooManyNodes` and the same forest when it is full.
pub open spec fn pushed(forest: Seq<MastNodeView>, node: MastNodeView) -> (
    Result<MastNodeId, MastForestError>,
    Seq<MastNodeView>,
) {
    if forest.len() < max_nodes() {
        (Ok(MastNodeId(forest.len() as u32)), forest.push(node))
    } else {
        (Err(MastForestError::TooManyNodes), forest)
    }
}

/// What adding a node built as `built` does to `forest`: a refused build leaves the forest as it
/// is and gives the error; a built node is pushed.
pub open spec fn added(forest: Seq<MastNodeView>, built: Result<MastNodeView, MastForestError>) -> (
    Result<MastNodeId, MastForestError>,
    Seq<MastNodeView>,
) {
    match built {
        Ok(node) => pushed(forest, node),
        Err(e) => (Err(e), forest),
    }
}

impl MastForest {
    /// An empty forest.
    pub fn new() -> (f: Self)
        ensures
            f@ == Seq::<MastNodeView>::empty(),
    {
        let f = MastForest { nodes: Vec::new() };
        proof {
            assert(f@ =~= Seq::<MastNodeView>::empty());
        }
        f
    }

    /// The number of nodes.
    pub fn num_nodes(&self) -> (r: usize)
        ensures
            r == self@.len(),
    {
        self.nodes.len()
    }

    /// The node with the given id, if there is one.
    pub fn get_node_by_id(&self, id: MastNodeId) -> (r: Option<&MastNode>)
        ensures
            match r {
                Some(n) => id.index() < self@.len() && n@ == self@[id.index() as int],
                None => id.index() >= self@.len(),
            },
    {
        let i = id.to_usize();
        if i < self.nodes.len() {
            Some(&self.nodes[i])
        } else {
            None
        }
    }

    /// The digest of the node with the given id.
    pub fn node_digest(&self, id: MastNodeId) -> (r: Word)
        requires
            id.index() < self@.len(),
        ensures
            r@ == self@[id.index() as int].digest(),
    {
        self.nodes[id.to_usize()].digest()
    }

    /// Pushes a node, refused with `TooManyNodes` once the forest is full.
    pub(crate) fn push_node(&mut self, node: MastNode) -> (r: Result<MastNodeId, MastForestError>)
        ensures
            (r, final(self)@) == pushed(old(self)@, node@),
    {
        if self.nodes.len() < u32::MAX as usize {
            let id = MastNodeId(self.nodes.len() as u32);
            self.nodes.push(node);
            proof {
                assert(self@ =~= old(self)@.push(node@));
            }
            Ok(id)
        } else {
            Err(MastForestError::TooManyNodes)
        }
    }
}

/// A node added to a forest is found at the id that adding it returned, after every node that
/// was there before, each at its old id; a refused addition leaves the forest as it was.
pub proof fn lemma_added_node_found(
    forest: Seq<MastNodeView>,
    built: Result<MastNodeView, MastForestError>,
)
    ensures
        ({
            let (r, after) = added(forest, built);
            match r {
                Ok(id) => {
                    &&& built is Ok
                    &&& id.index() == forest.len()
                    &&& after.len() == forest.len() + 1
                    &&& after[id.index() as int] == built->Ok_0
                    &&& forall|i: int| 0 <= i < forest.len() ==> after[i] == forest[i]
                },
                Err(_) => after == forest,
            }
        }),
{
}

/// The builders that add a node to a forest.
pub trait MastForestContributor: Sized {
    /// The node this builder makes against `forest`, or the error that refuses it.
    spec fn built(&self, forest: Seq<MastNodeView>) -> Result<MastNodeView, MastForestError>;

    /// Builds the node against the forest and adds it, returning its id.
    fn add_to_forest(self, forest: &mut MastForest) -> (r: Result<MastNodeId, MastForestError>)
        ensures
            (r, final(forest)@) == added(old(forest)@, self.built(old(forest)@)),
    ;
}

/// The model of a builder of any kind of node.
pub enum MastNodeBuilderView {
    Call(CallNodeBuilderView),
    External(ExternalNodeView),
    Join(JoinNodeBuilderView),
    Loop(LoopNodeBuilderView),
}

impl MastNodeBuilderView {
    /// The same builder with the given decorators.
    pub open spec fn with_decorators(self, before: Seq<DecoratorId>, after: Seq<DecoratorId>) -> Self {
        match self {
            MastNodeBuilderView::Call(b) => MastNodeBuilderView::Call(
                CallNodeBuilderView { before_enter: before, after_exit: after, ..b },
            ),
            MastNodeBuilderView::External(b) => MastNodeBuilderView::External(
                ExternalNodeView { before_enter: before, after_exit: after, ..b },
            ),
            MastNodeBuilderView::Join(b) => MastNodeBuilderView::Join(
                JoinNodeBuilderView { before_enter: before, after_exit: after, ..b },
            ),
            MastNodeBuilderView::Loop(b) => MastNodeBuilderView::Loop(
                LoopNodeBuilderView { before_enter: before, after_exit: after, ..b },
            ),
        }
    }
}

/// The node that a builder of any kind makes against `forest`, or the error that refuses it.
pub open spec fn node_built(b: MastNodeBuilderView, forest: Seq<MastNodeView>) -> Result<
    MastNodeView,
    MastForestError,
> {
    match b {
        MastNodeBuilderView::Call(c) => match call_built(c, forest) {
            Ok(n) => Ok(MastNodeView::Call(n)),
            Err(e) => Err(e),
        },
        MastNodeBuilderView::External(x) => Ok(MastNodeView::External(x)),
        MastNodeBuilderView::Join(j) => match join_built(j, forest) {
            Ok(n) => Ok(MastNodeView::Join(n)),
            Err(e) => Err(e),
        },
        MastNodeBuilderView::Loop(l) => match loop_built(l, forest) {
            Ok(n) => Ok(MastNodeView::Loop(n)),
            Err(e) => Err(e),
        },
    }
}

/// A builder of any kind of node.
pub enum MastNodeBuilder {
    Call(CallNodeBuilder),
    External(ExternalNodeBuilder),
    Join(JoinNodeBuilder),
    Loop(LoopNodeBuilder),
}

impl View for MastNodeBuilder {
    type V = MastNodeBuilderView;

    open spec fn view(&self) -> MastNodeBuilderView {
        match self {
            MastNodeBuilder::Call(b) => MastNodeBuilderView::Call(b@),
            MastNodeBuilder::External(b) => MastNodeBuilderView::External(b@),
            MastNodeBuilder::Join(b) => MastNodeBuilderView::Join(b@),
            MastNodeBuilder::Loop(b) => MastNodeBuilderView::Loop(b@),
        }
    }
}

impl MastNodeBuilder {
    /// The same builder with the given decorators run before and after the node.
    pub fn with_decorators(self, before: Vec<DecoratorId>, after: Vec<DecoratorId>) -> (b: Self)
        ensures
            b@ == self@.with_decorators(before@, after@),
    {
        match self {
            MastNodeBuilder::Call(b) => MastNodeBuilder::Call(
                b.with_before_enter(before).with_after_exit(after),
            ),
            MastNodeBuilder::External(b) => MastNodeBuilder::External(
                b.with_before_enter(before).with_after_exit(after),
            ),
            MastNodeBuilder::Join(b) => MastNodeBuilder::Join(
                b.with_before_enter(before).with_after_exit(after),
            ),
            MastNodeBuilder::Loop(b) => MastNodeBuilder::Loop(
                b.with_before_enter(before).with_after_exit(after),
            ),
        }
    }

    /// Builds the node; the kinds that have children are built against the forest that holds
    /// them, an external node needs no forest.
    pub fn build(self, mast_forest: &MastForest) -> (r: Result<MastNode, MastForestError>)
        ensures
            match r {
                Ok(node) => node_built(self@, mast_forest@) == Ok::<MastNodeView, MastForestError>(
                    node@,
                ),
                Err(e) => node_built(self@, mast_forest@) == Err::<MastNodeView, MastForestError>(
                    e,
                ),
            },
    {
        match self {
            MastNodeBuilder::Call(b) => match b.build(mast_forest) {
                Ok(n) => Ok(MastNode::Call(n)),
                Err(e) => Err(e),
            },
            MastNodeBuilder::External(b) => Ok(MastNode::External(b.build())),
            MastNodeBuilder::Join(b) => match b.build(mast_forest) {
                Ok(n) => Ok(MastNode::Join(n)),
                Err(e) => Err(e),
            },
            MastNodeBuilder::Loop(b) => match b.build(mast_forest) {
                Ok(n) => Ok(MastNode::Loop(n)),
                Err(e) => Err(e),
            },
        }
    }
}

impl MastForestContributor for MastNodeBuilder {
    open spec fn built(&self, forest: Seq<MastNodeView>) -> Result<MastNodeView, MastForestError> {
        node_built(self@, forest)
    }

    fn add_to_forest(self, forest: &mut MastForest) -> (r: Result<MastNodeId, MastForestError>) {
        match self.build(forest) {
            Ok(node) => forest.push_node(node),
            Err(e) => Err(e),
        }
    }
}

/// A node of any kind built against a forest is built again, the same, by its own builder
/// against that forest.
pub proof fn lemma_node_round_trip(b: MastNodeBuilderView, forest: Seq<MastNodeView>)
    requires
        node_built(b, forest) is Ok,
    ensures
        node_built(node_built(b, forest)->Ok_0.builder(), forest) == node_built(b, forest),
{
}

} // verus!
