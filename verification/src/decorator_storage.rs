//! Op-indexed decorator storage: decorators per operation per node, in a two-level CSR layout.
//!
//! ```text
//! Node 0, Op 0: [decorator_0, decorator_1]
//! Node 0, Op 1: [decorator_2]
//! Node 1, Op 0: [decorator_3, decorator_4, decorator_5]
//! ```
//! is stored as
//! ```text
//! decorator_indices:      [0, 1, 2, 3, 4, 5]
//! op_indptr_for_dec_idx:  [0, 2, 3, 6]
//! node_indptr_for_op_idx: [0, 2, 3]
//! ```
use vstd::prelude::*;

use crate::csr::{
    CsrView, adjacent_ordered, append_fits, lemma_adjacent_monotone, append_node, append_view, ids_for_op, lemma_append_tight,
    lemma_append_wf, max_node_ptrs,
    monotone, pointers_ordered, read_node_decorators, read_op_decorators, read_op_range,
    sorted_by_op, view_of,
};
use crate::ids::{DecoratorId, MastNodeId};

verus! {

/// Why a decorator storage query or update was refused.
#[derive(Debug, Clone, Copy, PartialEq, Eq, Structural)]
pub enum DecoratorStorageError {
    /// Node index out of bounds.
    NodeIndex(MastNodeId),
    /// Operation index out of bounds for the given node.
    OperationIndex { node: MastNodeId, operation: usize },
    /// Invalid internal data structure (corrupted pointers).
    InternalStructure,
}

impl DecoratorStorageError {
    /// The message that describes this error (without the ids it carries).
    pub fn message(&self) -> (r: String)
        ensures
            r@ == match self {
                DecoratorStorageError::NodeIndex(_) => "Invalid node index"@,
                DecoratorStorageError::OperationIndex { .. } => "Invalid operation index for node"@,
                DecoratorStorageError::InternalStructure => "Invalid internal data structure in DecoratorStorage"@,
            },
    {
        match self {
            DecoratorStorageError::NodeIndex(_) => String::from_str("Invalid node index"),
            DecoratorStorageError::OperationIndex { .. } => String::from_str(
                "Invalid operation index for node",
            ),
            DecoratorStorageError::InternalStructure => String::from_str(
                "Invalid internal data structure in DecoratorStorage",
            ),
        }
    }
}

/// Decorators per operation per node, in a two-level compressed sparse row layout.
#[derive(Debug, Clone, PartialEq, Eq)]
pub struct OpIndexedDecoratorStorage {
    /// All the decorator indices per operation per node.
    decorator_indices: Vec<DecoratorId>,
    /// The decorators of the operation at pointer index `i` are
    /// `decorator_indices[op_indptr_for_dec_idx[i]..op_indptr_for_dec_idx[i + 1]]`.
    op_indptr_for_dec_idx: Vec<usize>,
    /// The operations of node `n` are the pointer indices
    /// `node_indptr_for_op_idx[n]..node_indptr_for_op_idx[n + 1]`.
    node_indptr_for_op_idx: Vec<usize>,
}

impl View for OpIndexedDecoratorStorage {
    type V = CsrView;

    closed spec fn view(&self) -> CsrView {
        view_of(self.decorator_indices@, self.op_indptr_for_dec_idx@, self.node_indptr_for_op_idx@)
    }
}

/// The raw components pass the checks of `from_components`: there is an operation pointer and a
/// node pointer, the last of each is within what it points into, and both never decrease.
pub open spec fn components_valid(
    decorator_indices: Seq<DecoratorId>,
    op_indptr_for_dec_idx: Seq<usize>,
    node_indptr_for_op_idx: Seq<usize>,
) -> bool {
    &&& op_indptr_for_dec_idx.len() > 0
    &&& op_indptr_for_dec_idx.last() <= decorator_indices.len()
    &&& node_indptr_for_op_idx.len() > 0
    &&& node_indptr_for_op_idx.last() <= op_indptr_for_dec_idx.len() - 1
    &&& monotone(op_indptr_for_dec_idx)
    &&& monotone(node_indptr_for_op_idx)
}

/// Raw components are accepted exactly when both pointer vectors are non-empty, each pointer is
/// at most the next one (equal neighbours, that is empty ranges, are allowed), the last
/// operation pointer is within the decorator ids and the last node pointer names an operation
/// pointer.
pub proof fn lemma_components_valid_iff(
    decorator_indices: Seq<DecoratorId>,
    ops: Seq<usize>,
    nodes: Seq<usize>,
)
    ensures
        components_valid(decorator_indices, ops, nodes) <==> {
            &&& ops.len() > 0
            &&& nodes.len() > 0
            &&& ops[ops.len() - 1] <= decorator_indices.len()
            &&& nodes[nodes.len() - 1] < ops.len()
            &&& forall|i: int| 0 <= i < ops.len() - 1 ==> #[trigger] ops[i] <= ops[i + 1]
            &&& forall|i: int| 0 <= i < nodes.len() - 1 ==> #[trigger] nodes[i] <= nodes[i + 1]
        },
{
    if forall|i: int| 0 <= i < ops.len() - 1 ==> #[trigger] ops[i] <= ops[i + 1] {
        assert(adjacent_ordered(ops, ops.len() as int)) by {
            assert forall|i: int| 0 <= i && i + 1 < ops.len() as int && i + 1 < ops.len() implies #[trigger] ops[i] <= ops[i + 1] by {
                assert(0 <= i < ops.len() - 1);
            }
        }
        lemma_adjacent_monotone(ops);
    }
    if forall|i: int| 0 <= i < nodes.len() - 1 ==> #[trigger] nodes[i] <= nodes[i + 1] {
        assert(adjacent_ordered(nodes, nodes.len() as int)) by {
            assert forall|i: int| 0 <= i && i + 1 < nodes.len() as int && i + 1 < nodes.len() implies #[trigger] nodes[i] <= nodes[i + 1] by {
                assert(0 <= i < nodes.len() - 1);
            }
        }
        lemma_adjacent_monotone(nodes);
    }
    if monotone(ops) {
        assert forall|i: int| 0 <= i < ops.len() - 1 implies #[trigger] ops[i] <= ops[i + 1] by {
            assert(ops[i] <= ops[i + 1]);
        }
    }
    if monotone(nodes) {
        assert forall|i: int| 0 <= i < nodes.len() - 1 implies #[trigger] nodes[i] <= nodes[i + 1] by {
            assert(nodes[i] <= nodes[i + 1]);
        }
    }
}

/// Valid components satisfy the structural invariant.
pub proof fn lemma_components_wf(
    decorator_indices: Seq<DecoratorId>,
    op_indptr_for_dec_idx: Seq<usize>,
    node_indptr_for_op_idx: Seq<usize>,
)
    requires
        components_valid(decorator_indices, op_indptr_for_dec_idx, node_indptr_for_op_idx),
        node_indptr_for_op_idx.len() <= max_node_ptrs(),
        decorator_indices.len() <= usize::MAX,
        op_indptr_for_dec_idx.len() <= usize::MAX,
    ensures
        view_of(decorator_indices, op_indptr_for_dec_idx, node_indptr_for_op_idx).wf(),
{
    let ops = op_indptr_for_dec_idx;
    let nodes = node_indptr_for_op_idx;
    assert forall|i: int| 0 <= i < ops.len() implies #[trigger] ops[i] <= decorator_indices.len() by {
        assert(ops[i] <= ops[ops.len() - 1]);
    }
    assert forall|i: int| 0 <= i < nodes.len() implies #[trigger] nodes[i] <= ops.len() by {
        assert(nodes[i] <= nodes[nodes.len() - 1]);
    }
}

impl OpIndexedDecoratorStorage {
    /// An empty storage, with room reserved for the given numbers of nodes, operations and
    /// decorators.
    pub fn with_capacity(
        nodes_capacity: usize,
        operations_capacity: usize,
        decorators_capacity: usize,
    ) -> (s: Self)
        requires
            nodes_capacity < usize::MAX,
            operations_capacity < usize::MAX,
        ensures
            s@ == view_of(Seq::empty(), Seq::empty(), Seq::empty()),
            s@.wf(),
    {
        let s = OpIndexedDecoratorStorage {
            decorator_indices: Vec::with_capacity(decorators_capacity),
            op_indptr_for_dec_idx: Vec::with_capacity(operations_capacity + 1),
            node_indptr_for_op_idx: Vec::with_capacity(nodes_capacity + 1),
        };
        assert(s@ =~= view_of(Seq::empty(), Seq::empty(), Seq::empty()));
        assert(s@.wf());
        s
    }

    /// An empty storage.
    pub fn new() -> (s: Self)
        ensures
            s@ == view_of(Seq::empty(), Seq::empty(), Seq::empty()),
            s@.wf(),
    {
        Self::with_capacity(0, 0, 0)
    }

    /// Builds a storage from raw CSR components, refusing inconsistent pointers.
    pub fn from_components(
        decorator_indices: Vec<DecoratorId>,
        op_indptr_for_dec_idx: Vec<usize>,
        node_indptr_for_op_idx: Vec<usize>,
    ) -> (r: Result<Self, DecoratorStorageError>)
        requires
            node_indptr_for_op_idx@.len() <= max_node_ptrs(),
        ensures
            r is Ok <==> components_valid(
                decorator_indices@,
                op_indptr_for_dec_idx@,
                node_indptr_for_op_idx@,
            ),
            r matches Ok(s) ==> s@ == view_of(
                decorator_indices@,
                op_indptr_for_dec_idx@,
                node_indptr_for_op_idx@,
            ) && s@.wf(),
            r matches Err(e) ==> e == DecoratorStorageError::InternalStructure,
    {
        if op_indptr_for_dec_idx.len() == 0 {
            return Err(DecoratorStorageError::InternalStructure);
        }
        if op_indptr_for_dec_idx[op_indptr_for_dec_idx.len() - 1] > decorator_indices.len() {
            return Err(DecoratorStorageError::InternalStructure);
        }
        if node_indptr_for_op_idx.len() == 0 {
            return Err(DecoratorStorageError::InternalStructure);
        }
        if node_indptr_for_op_idx[node_indptr_for_op_idx.len() - 1] > op_indptr_for_dec_idx.len()
            - 1 {
            return Err(DecoratorStorageError::InternalStructure);
        }
        if !pointers_ordered(&op_indptr_for_dec_idx) {
            return Err(DecoratorStorageError::InternalStructure);
        }
        if !pointers_ordered(&node_indptr_for_op_idx) {
            return Err(DecoratorStorageError::InternalStructure);
        }
        proof {
            assert(decorator_indices.len() <= usize::MAX);
            assert(op_indptr_for_dec_idx.len() <= usize::MAX);
            lemma_components_wf(
                decorator_indices@,
                op_indptr_for_dec_idx@,
                node_indptr_for_op_idx@,
            );
        }
        Ok(OpIndexedDecoratorStorage {
            decorator_indices,
            op_indptr_for_dec_idx,
            node_indptr_for_op_idx,
        })
    }

    /// The number of nodes in this storage.
    pub fn num_nodes(&self) -> (r: usize)
        ensures
            r == self@.num_nodes(),
    {
        if self.node_indptr_for_op_idx.len() == 0 {
            0
        } else {
            self.node_indptr_for_op_idx.len() - 1
        }
    }

    /// The total number of decorators across all operations.
    pub fn num_decorators(&self) -> (r: usize)
        ensures
            r == self@.decorators.len(),
    {
        self.decorator_indices.len()
    }

    /// Adds the op-indexed decorators of the next node. `decorators_info` lists
    /// `(operation index, decorator)` pairs ordered by operation index; operations up to the last
    /// index that no pair names get no decorators. Only the next node in sequence is accepted.
    pub fn add_decorator_info_for_node(
        &mut self,
        node: MastNodeId,
        decorators_info: Vec<(usize, DecoratorId)>,
    ) -> (r: Result<(), DecoratorStorageError>)
        requires
            old(self)@.wf(),
        ensures
            final(self)@.wf(),
            node.index() == old(self)@.num_nodes() ==> r is Ok && final(self)@ == append_view(
                old(self)@,
                decorators_info@,
            ),
            (old(self)@.tight() && append_fits(old(self)@, decorators_info@)) ==> final(self)@.tight(),
            node.index() != old(self)@.num_nodes() ==> r == Err::<(), DecoratorStorageError>(
                DecoratorStorageError::NodeIndex(node),
            ) && final(self)@ == old(self)@,
    {
        let expected = MastNodeId::new_unchecked(self.num_nodes() as u32);
        if node != expected {
            return Err(DecoratorStorageError::NodeIndex(node));
        }
        let ghost before = self@;
        let _ = append_node(
            &mut self.decorator_indices,
            &mut self.op_indptr_for_dec_idx,
            &mut self.node_indptr_for_op_idx,
            decorators_info,
        );
        proof {
            assert(self.decorator_indices.len() <= usize::MAX);
            assert(self.op_indptr_for_dec_idx.len() <= usize::MAX);
            lemma_append_wf(before, decorators_info@);
            if before.tight() && append_fits(before, decorators_info@) {
                lemma_append_tight(before, decorators_info@);
            }
        }
        Ok(())
    }

    /// The number of decorators of operation `operation` of `node`.
    pub fn num_decorators_for_operation(&self, node: MastNodeId, operation: usize) -> (r: Result<
        usize,
        DecoratorStorageError,
    >)
        ensures
            match (r, self@.op_decorators(node, operation as nat)) {
                (Ok(n), Ok(s)) => n == s.len(),
                (Err(e), Err(f)) => e == f,
                _ => false,
            },
    {
        match self.decorators_for_operation(node, operation) {
            Ok(slice) => Ok(slice.len()),
            Err(e) => Err(e),
        }
    }

    /// The decorators of operation `operation` of `node`: empty for an operation that the node
    /// does not list, an error for an unknown node or corrupted pointers.
    pub fn decorators_for_operation(&self, node: MastNodeId, operation: usize) -> (r: Result<
        &[DecoratorId],
        DecoratorStorageError,
    >)
        ensures
            match (r, self@.op_decorators(node, operation as nat)) {
                (Ok(s), Ok(t)) => s@ == t,
                (Err(e), Err(f)) => e == f,
                _ => false,
            },
    {
        read_op_decorators(
            &self.decorator_indices,
            &self.op_indptr_for_dec_idx,
            &self.node_indptr_for_op_idx,
            node,
            operation,
        )
    }

    /// Every operation of `node` with its decorators, as `(operation index, decorators)`.
    pub fn decorators_for_node(&self, node: MastNodeId) -> (r: Result<
        Vec<(usize, &[DecoratorId])>,
        DecoratorStorageError,
    >)
        requires
            self@.wf(),
        ensures
            match (r, self@.op_range(node)) {
                (Ok(list), Ok((s, e))) => list@.len() == e - s && forall|j: int|
                    0 <= j < list@.len() ==> (#[trigger] list@[j]).0 == j && list@[j].1@
                        == self@.slot(s + j),
                (Err(x), Err(y)) => x == y,
                _ => false,
            },
    {
        read_node_decorators(
            &self.decorator_indices,
            &self.op_indptr_for_dec_idx,
            &self.node_indptr_for_op_idx,
            node,
        )
    }

    /// Whether operation `operation` of `node` has at least one decorator.
    pub fn operation_has_decorators(&self, node: MastNodeId, operation: usize) -> (r: Result<
        bool,
        DecoratorStorageError,
    >)
        ensures
            match (r, self@.op_decorators(node, operation as nat)) {
                (Ok(b), Ok(s)) => b == (s.len() > 0),
                (Err(e), Err(f)) => e == f,
                _ => false,
            },
    {
        match self.num_decorators_for_operation(node, operation) {
            Ok(count) => Ok(count > 0),
            Err(e) => Err(e),
        }
    }

    /// The range of operation pointer indices of `node`.
    fn operation_range_for_node(&self, node: MastNodeId) -> (r: Result<
        core::ops::Range<usize>,
        DecoratorStorageError,
    >)
        ensures
            match (r, self@.op_range(node)) {
                (Ok(range), Ok((s, e))) => range.start == s && range.end == e,
                (Err(x), Err(y)) => x == y,
                _ => false,
            },
    {
        match read_op_range(self.op_indptr_for_dec_idx.len(), &self.node_indptr_for_op_idx, node) {
            Ok((start, end)) => Ok(start..end),
            Err(e) => Err(e),
        }
    }
}

impl Default for OpIndexedDecoratorStorage {
    fn default() -> (s: Self)
        ensures
            s@ == view_of(Seq::empty(), Seq::empty(), Seq::empty()),
    {
        Self::new()
    }
}

} // verus!
