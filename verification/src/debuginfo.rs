//! Decorator id index of the debug information: decorator ids per operation per node in a
//! two-level CSR layout, with a flattened `(operation, decorator)` view of a node.
use vstd::prelude::*;

use crate::csr::{
    lemma_append_keeps_earlier, lemma_cursor_monotone, lemma_cursor_run_is_ids, lemma_cursor_sorted, cursor,
    CsrView, append_fits, append_node, append_view, appended_end, bounded_by, ids_for_op,
    lemma_append_then_read, lemma_append_tight, lemma_append_wf, max_node_ptrs, monotone, pointers_ordered,
    read_node_decorators, read_op_decorators, read_op_range, reopened, sorted_by_op, view_of,
};
use crate::decorator_storage::{DecoratorStorageError, components_valid, lemma_components_wf};
use crate::ids::{DecoratorId, MastNodeId};

verus! {

/// Links an operation index of a block to a decorator id, to be executed right before that
/// operation.
pub type DecoratedOpLink = (usize, DecoratorId);

/// Why a decorator index query or update was refused.
#[derive(Debug, Clone, Copy, PartialEq, Eq, Structural)]
pub enum DecoratorIndexError {
    /// Node index out of bounds.
    NodeIndex(MastNodeId),
    /// Operation index out of bounds for the given node.
    OperationIndex { node: MastNodeId, operation: usize },
    /// Invalid internal data structure (corrupted pointers).
    InternalStructure,
}

impl DecoratorIndexError {
    /// The message that describes this error (without the ids it carries).
    pub fn message(&self) -> (r: String)
        ensures
            r@ == match self {
                DecoratorIndexError::NodeIndex(_) => "Invalid node index"@,
                DecoratorIndexError::OperationIndex { .. } => "Invalid operation index for node"@,
                DecoratorIndexError::InternalStructure => "Invalid internal data structure in DecoratorIndexMapping"@,
            },
    {
        match self {
            DecoratorIndexError::NodeIndex(_) => String::from_str("Invalid node index"),
            DecoratorIndexError::OperationIndex { .. } => String::from_str(
                "Invalid operation index for node",
            ),
            DecoratorIndexError::InternalStructure => String::from_str(
                "Invalid internal data structure in DecoratorIndexMapping",
            ),
        }
    }
}

/// The index error that stands for a storage error.
pub open spec fn index_error(e: DecoratorStorageError) -> DecoratorIndexError {
    match e {
        DecoratorStorageError::NodeIndex(n) => DecoratorIndexError::NodeIndex(n),
        DecoratorStorageError::OperationIndex { node, operation } => DecoratorIndexError::OperationIndex {
            node,
            operation,
        },
        DecoratorStorageError::InternalStructure => DecoratorIndexError::InternalStructure,
    }
}

fn to_index_error(e: DecoratorStorageError) -> (r: DecoratorIndexError)
    ensures
        r == index_error(e),
{
    match e {
        DecoratorStorageError::NodeIndex(n) => DecoratorIndexError::NodeIndex(n),
        DecoratorStorageError::OperationIndex { node, operation } => DecoratorIndexError::OperationIndex {
            node,
            operation,
        },
        DecoratorStorageError::InternalStructure => DecoratorIndexError::InternalStructure,
    }
}

/// Decorator ids per operation per node, in a two-level compressed sparse row layout.
#[derive(Debug, Clone, PartialEq, Eq)]
pub struct DecoratorIndexMapping {
    /// All the decorator ids per operation per node.
    decorator_ids: Vec<DecoratorId>,
    /// The ids of the operation at pointer index `i` are
    /// `decorator_ids[op_indptr_for_dec_ids[i]..op_indptr_for_dec_ids[i + 1]]`.
    op_indptr_for_dec_ids: Vec<usize>,
    /// The operations of node `n` are the pointer indices
    /// `node_indptr_for_op_idx[n]..node_indptr_for_op_idx[n + 1]`.
    node_indptr_for_op_idx: Vec<usize>,
}

impl View for DecoratorIndexMapping {
    type V = CsrView;

    closed spec fn view(&self) -> CsrView {
        view_of(self.decorator_ids@, self.op_indptr_for_dec_ids@, self.node_indptr_for_op_idx@)
    }
}

/// The mapping after `count` nodes without decorators are appended.
pub open spec fn with_empty_nodes(v: CsrView, count: nat) -> CsrView
    decreases count,
{
    if count == 0 {
        v
    } else {
        append_view(with_empty_nodes(v, (count - 1) as nat), Seq::empty())
    }
}

/// Appending nodes without decorators adds nodes and keeps operations and decorators.
pub proof fn lemma_with_empty_nodes(v: CsrView, count: nat)
    requires
        v.wf(),
        v.num_nodes() + count < max_node_ptrs(),
    ensures
        with_empty_nodes(v, count).wf(),
        with_empty_nodes(v, count).num_nodes() == v.num_nodes() + count,
        count > 0 ==> with_empty_nodes(v, count).node_ptrs.len() == v.num_nodes() + count + 1,
        with_empty_nodes(v, count).op_ptrs == v.op_ptrs,
        with_empty_nodes(v, count).decorators == v.decorators,
    decreases count,
{
    if count > 0 {
        lemma_with_empty_nodes(v, (count - 1) as nat);
        let u = with_empty_nodes(v, (count - 1) as nat);
        lemma_append_wf(u, Seq::empty());
    }
}

/// Appending nodes without decorators keeps a store laid out as appends leave it.
pub proof fn lemma_with_empty_nodes_tight(v: CsrView, count: nat)
    requires
        v.wf(),
        v.tight(),
        v.num_nodes() + count < max_node_ptrs(),
    ensures
        with_empty_nodes(v, count).tight(),
    decreases count,
{
    if count > 0 {
        lemma_with_empty_nodes_tight(v, (count - 1) as nat);
        lemma_with_empty_nodes(v, (count - 1) as nat);
        lemma_with_empty_nodes(v, count);
        let u = with_empty_nodes(v, (count - 1) as nat);
        assert(append_fits(u, Seq::empty()));
        lemma_append_tight(u, Seq::empty());
    }
}

/// Nodes appended without decorators all start and end at the current number of operation
/// pointers; earlier node pointers stay.
pub proof fn lemma_with_empty_nodes_ptrs(v: CsrView, count: nat)
    requires
        v.wf(),
        v.num_nodes() + count < max_node_ptrs(),
        count > 0,
    ensures
        forall|i: int|
            v.num_nodes() <= i <= v.num_nodes() + count ==> #[trigger] with_empty_nodes(
                v,
                count,
            ).node_ptrs[i] == v.op_ptrs.len(),
        forall|i: int|
            0 <= i < v.num_nodes() ==> #[trigger] with_empty_nodes(v, count).node_ptrs[i]
                == v.node_ptrs[i],
    decreases count,
{
    lemma_with_empty_nodes(v, count);
    lemma_with_empty_nodes(v, (count - 1) as nat);
    if count > 1 {
        lemma_with_empty_nodes_ptrs(v, (count - 1) as nat);
    }
}

/// Adding a node past the current last one leaves every node in between without decorators,
/// and reading the added node back gives, for each operation, exactly the ids attached to it
/// (the entries being ordered by operation index).
pub proof fn lemma_gap_fill_then_read(v: CsrView, node: MastNodeId, info: Seq<(usize, DecoratorId)>)
    requires
        v.wf(),
        sorted_by_op(info),
        v.num_nodes() <= node.index(),
        node.index() + 1 < max_node_ptrs(),
        append_view(with_empty_nodes(v, (node.index() - v.num_nodes()) as nat), info).decorators.len()
            <= usize::MAX,
        append_view(with_empty_nodes(v, (node.index() - v.num_nodes()) as nat), info).op_ptrs.len()
            <= usize::MAX,
    ensures
        ({
            let w = append_view(with_empty_nodes(v, (node.index() - v.num_nodes()) as nat), info);
            &&& w.num_nodes() == node.index() + 1
            &&& forall|op: nat|
                #[trigger] w.op_decorators(node, op) == Ok::<
                    Seq<DecoratorId>,
                    DecoratorStorageError,
                >(ids_for_op(info, op))
            &&& forall|g: u32, op: nat|
                v.num_nodes() <= g < node.index() ==> #[trigger] w.op_decorators(
                    MastNodeId(g),
                    op,
                ) == Ok::<Seq<DecoratorId>, DecoratorStorageError>(Seq::empty())
        }),
{
    let n = v.num_nodes();
    let k = (node.index() - n) as nat;
    let filled = with_empty_nodes(v, k);
    lemma_with_empty_nodes(v, k);
    lemma_append_wf(filled, info);
    lemma_append_then_read(filled, node, info);
    let w = append_view(filled, info);
    let l = v.op_ptrs.len();
    if k > 0 {
        lemma_with_empty_nodes_ptrs(v, k);
        assert forall|g: u32, op: nat| n <= g < node.index() implies #[trigger] w.op_decorators(
            MastNodeId(g),
            op,
        ) == Ok::<Seq<DecoratorId>, DecoratorStorageError>(Seq::empty()) by {
            assert(filled.node_ptrs[g as int] == l);
            assert(filled.node_ptrs[g + 1] == l);
            assert(w.node_ptrs[g as int] == l);
            assert(w.node_ptrs[g + 1] == l);
        }
    }
}

impl DecoratorIndexMapping {
    /// An empty mapping, with room reserved for the given numbers of nodes, operations and
    /// decorator ids.
    pub fn with_capacity(
        nodes_capacity: usize,
        operations_capacity: usize,
        decorator_ids_capacity: usize,
    ) -> (s: Self)
        requires
            nodes_capacity < usize::MAX,
            operations_capacity < usize::MAX,
        ensures
            s@ == view_of(Seq::empty(), Seq::empty(), Seq::empty()),
            s@.wf(),
    {
        let s = DecoratorIndexMapping {
            decorator_ids: Vec::with_capacity(decorator_ids_capacity),
            op_indptr_for_dec_ids: Vec::with_capacity(operations_capacity + 1),
            node_indptr_for_op_idx: Vec::with_capacity(nodes_capacity + 1),
        };
        assert(s@ =~= view_of(Seq::empty(), Seq::empty(), Seq::empty()));
        assert(s@.wf());
        s
    }

    /// An empty mapping.
    pub fn new() -> (s: Self)
        ensures
            s@ == view_of(Seq::empty(), Seq::empty(), Seq::empty()),
            s@.wf(),
    {
        Self::with_capacity(0, 0, 0)
    }

    /// Builds a mapping from raw CSR components, refusing inconsistent pointers.
    pub fn from_components(
        decorator_ids: Vec<DecoratorId>,
        op_indptr_for_dec_ids: Vec<usize>,
        node_indptr_for_op_idx: Vec<usize>,
    ) -> (r: Result<Self, DecoratorIndexError>)
        requires
            node_indptr_for_op_idx@.len() <= max_node_ptrs(),
        ensures
            r is Ok <==> components_valid(
                decorator_ids@,
                op_indptr_for_dec_ids@,
                node_indptr_for_op_idx@,
            ),
            r matches Ok(s) ==> s@ == view_of(
                decorator_ids@,
                op_indptr_for_dec_ids@,
                node_indptr_for_op_idx@,
            ) && s@.wf(),
            r matches Err(e) ==> e == DecoratorIndexError::InternalStructure,
    {
        if op_indptr_for_dec_ids.len() == 0 {
            return Err(DecoratorIndexError::InternalStructure);
        }
        let last_op_ptr = op_indptr_for_dec_ids[op_indptr_for_dec_ids.len() - 1];
        if last_op_ptr > decorator_ids.len() {
            return Err(DecoratorIndexError::InternalStructure);
        }
        if node_indptr_for_op_idx.len() == 0 {
            return Err(DecoratorIndexError::InternalStructure);
        }
        let last_node_ptr = node_indptr_for_op_idx[node_indptr_for_op_idx.len() - 1];
        if last_node_ptr > op_indptr_for_dec_ids.len() - 1 {
            return Err(DecoratorIndexError::InternalStructure);
        }
        if !pointers_ordered(&op_indptr_for_dec_ids) {
            return Err(DecoratorIndexError::InternalStructure);
        }
        if !pointers_ordered(&node_indptr_for_op_idx) {
            return Err(DecoratorIndexError::InternalStructure);
        }
        proof {
            assert(decorator_ids.len() <= usize::MAX);
            assert(op_indptr_for_dec_ids.len() <= usize::MAX);
            lemma_components_wf(decorator_ids@, op_indptr_for_dec_ids@, node_indptr_for_op_idx@);
        }
        Ok(DecoratorIndexMapping { decorator_ids, op_indptr_for_dec_ids, node_indptr_for_op_idx })
    }

    /// Whether the mapping has no node pointers at all.
    pub fn is_empty(&self) -> (r: bool)
        ensures
            r == (self@.node_ptrs.len() == 0),
    {
        self.node_indptr_for_op_idx.len() == 0
    }

    /// The number of nodes in this mapping.
    pub fn num_nodes(&self) -> (r: usize)
        ensures
            r == self@.num_nodes(),
    {
        if self.node_indptr_for_op_idx.len() == 0 {
            0
        } else {
            self.node_indptr_for_op_idx.len() - 1
        }
    }

    /// The total number of decorator ids across all operations.
    pub fn num_decorator_ids(&self) -> (r: usize)
        ensures
            r == self@.decorators.len(),
    {
        self.decorator_ids.len()
    }

    /// Adds the op-indexed decorator ids of `node`. Nodes between the current last one and
    /// `node` are added first, without decorators; a node that already exists is refused.
    /// `decorators_info` lists `(operation index, decorator id)` pairs ordered by operation
    /// index; operations up to the last index that no pair names get no ids.
    pub fn add_decorator_info_for_node(
        &mut self,
        node: MastNodeId,
        decorators_info: Vec<(usize, DecoratorId)>,
    ) -> (r: Result<(), DecoratorIndexError>)
        requires
            old(self)@.wf(),
            node.index() > old(self)@.num_nodes() ==> node.index() < max_node_ptrs(),
        ensures
            final(self)@.wf(),
            node.index() < old(self)@.num_nodes() ==> r == Err::<(), DecoratorIndexError>(
                DecoratorIndexError::NodeIndex(node),
            ) && final(self)@ == old(self)@,
            node.index() >= old(self)@.num_nodes() ==> {
                let filled = with_empty_nodes(
                    old(self)@,
                    (node.index() - old(self)@.num_nodes()) as nat,
                );
                &&& final(self)@ == append_view(filled, decorators_info@)
                &&& append_fits(filled, decorators_info@) ==> r is Ok
                &&& (old(self)@.tight() && r is Ok) ==> final(self)@.tight()
                &&& !append_fits(filled, decorators_info@) ==> r == Err::<(), DecoratorIndexError>(
                    DecoratorIndexError::OperationIndex {
                        node,
                        operation: appended_end(filled, decorators_info@),
                    },
                )
            },
    {
        let expected = self.num_nodes() as u32;
        if node.0 < expected {
            return Err(DecoratorIndexError::NodeIndex(node));
        }
        let ghost start = self@;
        proof {
            lemma_with_empty_nodes(start, (node.index() - start.num_nodes()) as nat);
        }
        let mut idx: u32 = expected;
        while idx < node.0
            invariant
                expected == start.num_nodes(),
                expected <= idx <= node.0,
                start.wf(),
                node.index() > start.num_nodes() ==> node.index() < max_node_ptrs(),
                self@ == with_empty_nodes(start, (idx - expected) as nat),
            decreases node.0 - idx,
        {
            proof {
                lemma_with_empty_nodes(start, (idx - expected) as nat);
                lemma_with_empty_nodes(start, (idx + 1 - expected) as nat);
            }
            let pushed = append_node(
                &mut self.decorator_ids,
                &mut self.op_indptr_for_dec_ids,
                &mut self.node_indptr_for_op_idx,
                Vec::new(),
            );
            assert(pushed);
            idx = idx + 1;
        }
        let ghost filled = self@;
        let info_was_empty = decorators_info.len() == 0;
        let pushed = append_node(
            &mut self.decorator_ids,
            &mut self.op_indptr_for_dec_ids,
            &mut self.node_indptr_for_op_idx,
            decorators_info,
        );
        proof {
            assert(self.decorator_ids.len() <= usize::MAX);
            assert(self.op_indptr_for_dec_ids.len() <= usize::MAX);
            lemma_append_wf(filled, decorators_info@);
            if start.tight() && pushed {
                lemma_with_empty_nodes_tight(start, (node.index() - start.num_nodes()) as nat);
                lemma_append_tight(filled, decorators_info@);
            }
        }
        if !pushed {
            let operation = if info_was_empty {
                self.op_indptr_for_dec_ids.len()
            } else {
                self.op_indptr_for_dec_ids.len() - 1
            };
            return Err(DecoratorIndexError::OperationIndex { node, operation });
        }
        Ok(())
    }

    /// The number of decorator ids of operation `operation` of `node`.
    pub fn num_decorator_ids_for_operation(&self, node: MastNodeId, operation: usize) -> (r:
        Result<usize, DecoratorIndexError>)
        ensures
            match (r, self@.op_decorators(node, operation as nat)) {
                (Ok(n), Ok(s)) => n == s.len(),
                (Err(e), Err(f)) => e == index_error(f),
                _ => false,
            },
    {
        match self.decorator_ids_for_operation(node, operation) {
            Ok(slice) => Ok(slice.len()),
            Err(e) => Err(e),
        }
    }

    /// The decorator ids of operation `operation` of `node`: empty for an operation that the
    /// node does not list, an error for an unknown node or corrupted pointers.
    pub fn decorator_ids_for_operation(&self, node: MastNodeId, operation: usize) -> (r: Result<
        &[DecoratorId],
        DecoratorIndexError,
    >)
        ensures
            match (r, self@.op_decorators(node, operation as nat)) {
                (Ok(s), Ok(t)) => s@ == t,
                (Err(e), Err(f)) => e == index_error(f),
                _ => false,
            },
    {
        match read_op_decorators(
            &self.decorator_ids,
            &self.op_indptr_for_dec_ids,
            &self.node_indptr_for_op_idx,
            node,
            operation,
        ) {
            Ok(slice) => Ok(slice),
            Err(e) => Err(to_index_error(e)),
        }
    }

    /// Every operation of `node` with its decorator ids, as `(operation index, ids)`.
    pub fn decorator_ids_for_node(&self, node: MastNodeId) -> (r: Result<
        Vec<(usize, &[DecoratorId])>,
        DecoratorIndexError,
    >)
        requires
            self@.wf(),
        ensures
            match (r, self@.op_range(node)) {
                (Ok(list), Ok((s, e))) => list@.len() == e - s && forall|j: int|
                    0 <= j < list@.len() ==> (#[trigger] list@[j]).0 == j && list@[j].1@
                        == self@.slot(s + j),
                (Err(x), Err(y)) => x == index_error(y),
                _ => false,
            },
    {
        match read_node_decorators(
            &self.decorator_ids,
            &self.op_indptr_for_dec_ids,
            &self.node_indptr_for_op_idx,
            node,
        ) {
            Ok(list) => Ok(list),
            Err(e) => Err(to_index_error(e)),
        }
    }

    /// A zero-copy view of all `(operation index, decorator id)` pairs of `node`.
    pub fn decorator_links_for_node<'a>(&'a self, node: MastNodeId) -> (r: Result<
        DecoratedLinks<'a>,
        DecoratorIndexError,
    >)
        ensures
            match (r, self@.op_range(node)) {
                (Ok(links), Ok((s, e))) => {
                    &&& links.start() == s
                    &&& links.end() == e
                    &&& links.ops() == self@.op_ptrs
                    &&& links.decorators() == self@.decorators
                },
                (Err(x), Err(y)) => x == index_error(y),
                _ => false,
            },
    {
        match read_op_range(self.op_indptr_for_dec_ids.len(), &self.node_indptr_for_op_idx, node) {
            Ok((start, end)) => Ok(
                DecoratedLinks::new(
                    start,
                    end,
                    self.op_indptr_for_dec_ids.as_slice(),
                    self.decorator_ids.as_slice(),
                ),
            ),
            Err(e) => Err(to_index_error(e)),
        }
    }

    /// Whether operation `operation` of `node` has at least one decorator id.
    pub fn operation_has_decorator_ids(&self, node: MastNodeId, operation: usize) -> (r: Result<
        bool,
        DecoratorIndexError,
    >)
        ensures
            match (r, self@.op_decorators(node, operation as nat)) {
                (Ok(b), Ok(s)) => b == (s.len() > 0),
                (Err(e), Err(f)) => e == index_error(f),
                _ => false,
            },
    {
        match self.num_decorator_ids_for_operation(node, operation) {
            Ok(count) => Ok(count > 0),
            Err(e) => Err(e),
        }
    }

    /// The range of operation pointer indices of `node`.
    pub fn operation_range_for_node(&self, node: MastNodeId) -> (r: Result<
        core::ops::Range<usize>,
        DecoratorIndexError,
    >)
        ensures
            match (r, self@.op_range(node)) {
                (Ok(range), Ok((s, e))) => range.start == s && range.end == e,
                (Err(x), Err(y)) => x == index_error(y),
                _ => false,
            },
    {
        match read_op_range(self.op_indptr_for_dec_ids.len(), &self.node_indptr_for_op_idx, node) {
            Ok((start, end)) => Ok(start..end),
            Err(e) => Err(to_index_error(e)),
        }
    }

    /// The number of operation pointers (the position where a node without operations that is
    /// added next starts).
    pub fn num_op_pointers(&self) -> (r: usize)
        ensures
            r == self@.op_ptrs.len(),
    {
        self.op_indptr_for_dec_ids.len()
    }
}

impl Default for DecoratorIndexMapping {
    fn default() -> (s: Self)
        ensures
            s@ == view_of(Seq::empty(), Seq::empty(), Seq::empty()),
    {
        Self::new()
    }
}

// ---------------------------------------------------------------------------------------------
// Flattened links of a node

/// The `(operation, decorator)` pairs of the operations at pointer indices `[lo, hi)`, with
/// operation indices counted from `base`.
pub open spec fn pairs_between(
    ops: Seq<usize>,
    decorators: Seq<DecoratorId>,
    lo: int,
    hi: int,
    base: int,
) -> Seq<DecoratedOpLink>
    decreases hi - lo,
{
    if hi <= lo {
        Seq::empty()
    } else {
        pairs_between(ops, decorators, lo, hi - 1, base) + decorators.subrange(
            ops[hi - 1] as int,
            ops[hi] as int,
        ).map_values(|d: DecoratorId| ((hi - 1 - base) as usize, d))
    }
}

/// The count of pairs that a links view announces: for each operation of its range, the
/// distance to the next pointer (none for an operation at the last pointer, which closes the
/// pointers).
pub open spec fn announced_count(ops: Seq<usize>, lo: int, hi: int) -> int
    decreases hi - lo,
{
    if hi <= lo {
        0
    } else {
        let i = hi - 1;
        let next = if i + 1 < ops.len() {
            ops[i + 1] as int
        } else {
            ops[i] as int
        };
        announced_count(ops, lo, hi - 1) + (next - ops[i])
    }
}

/// An immutable view over all `(operation index, decorator id)` pairs of one node.
pub struct DecoratedLinks<'a> {
    start_op: usize,
    end_op: usize,
    op_indptr_for_dec_idx: &'a [usize],
    decorator_indices: &'a [DecoratorId],
}

impl<'a> DecoratedLinks<'a> {
    /// First operation pointer index of the node.
    pub closed spec fn start(&self) -> int {
        self.start_op as int
    }

    /// One past the last operation pointer index of the node.
    pub closed spec fn end(&self) -> int {
        self.end_op as int
    }

    /// The operation pointers viewed.
    pub closed spec fn ops(&self) -> Seq<usize> {
        self.op_indptr_for_dec_idx@
    }

    /// The decorator ids viewed.
    pub closed spec fn decorators(&self) -> Seq<DecoratorId> {
        self.decorator_indices@
    }

    /// The last operation that iteration reaches: the node's end, or the last pointer.
    pub open spec fn reach(&self) -> int {
        if self.end() < self.ops().len() {
            self.end()
        } else {
            self.ops().len() - 1
        }
    }

    /// The pairs that iterating the view yields.
    pub open spec fn links(&self) -> Seq<DecoratedOpLink> {
        pairs_between(self.ops(), self.decorators(), self.start(), self.reach(), self.start())
    }

    /// The view can be iterated without fault: its range lies within the pointers, pointers are
    /// ordered and within the ids, which are at most `usize::MAX`.
    pub open spec fn iterable(&self) -> bool {
        &&& 0 <= self.start() <= self.end() <= self.ops().len()
        &&& monotone(self.ops())
        &&& bounded_by(self.ops(), self.decorators().len())
        &&& self.decorators().len() <= usize::MAX
    }

    fn new(
        start_op: usize,
        end_op: usize,
        op_indptr_for_dec_idx: &'a [usize],
        decorator_indices: &'a [DecoratorId],
    ) -> (r: Self)
        ensures
            r.start() == start_op,
            r.end() == end_op,
            r.ops() == op_indptr_for_dec_idx@,
            r.decorators() == decorator_indices@,
    {
        DecoratedLinks { start_op, end_op, op_indptr_for_dec_idx, decorator_indices }
    }

    /// The exact number of pairs: the distance between the node's first pointer and the
    /// pointer where iteration stops (the node's end, or the last pointer).
    pub fn len_pairs(&self) -> (r: usize)
        requires
            self.iterable(),
        ensures
            r == self.links().len(),
    {
        proof {
            lemma_links_len(self);
        }
        if self.start_op >= self.end_op {
            return 0;
        }
        let last = if self.end_op < self.op_indptr_for_dec_idx.len() {
            self.end_op
        } else {
            self.op_indptr_for_dec_idx.len() - 1
        };
        let s = self.op_indptr_for_dec_idx[self.start_op];
        let e = self.op_indptr_for_dec_idx[last];
        e - s
    }

    /// Whether the view holds no pair.
    pub fn is_empty(&self) -> (r: bool)
        requires
            self.iterable(),
        ensures
            r == (self.links().len() == 0),
    {
        self.len_pairs() == 0
    }

    /// An iterator over the pairs of the view, with the announced count as its length.
    pub fn into_iter(self) -> (it: DecoratedLinksIter<'a>)
        requires
            self.iterable(),
        ensures
            it.inv(),
            it.pending() == self.links(),
            it.remaining_count() == self.links().len(),
    {
        let ops = self.op_indptr_for_dec_idx;
        let mut remaining: usize = 0;
        proof {
            lemma_links_len(&self);
        }
        if self.start_op < self.end_op {
            let mut op_idx = self.start_op;
            while op_idx < self.end_op
                invariant
                    self.iterable(),
                    announced_count(ops@, self.start(), self.end()) <= usize::MAX,
                    ops@ == self.ops(),
                    self.start_op < self.end_op,
                    self.start_op <= op_idx <= self.end_op,
                    remaining == announced_count(ops@, self.start(), op_idx as int),
                decreases self.end_op - op_idx,
            {
                proof {
                    lemma_announced_count_nonneg(ops@, self.start(), op_idx + 1, self.end());
                }
                let start_idx = ops[op_idx];
                let end_idx = if op_idx + 1 < ops.len() {
                    ops[op_idx + 1]
                } else {
                    ops[op_idx]
                };
                assert(end_idx >= start_idx);
                remaining = remaining + (end_idx - start_idx);
                op_idx = op_idx + 1;
            }
        }
        let (inner_i, inner_end) = if self.start_op < self.end_op && self.start_op + 1 < ops.len() {
            (ops[self.start_op], ops[self.start_op + 1])
        } else {
            (0, 0)
        };
        let it = DecoratedLinksIter {
            cur_op: self.start_op,
            end_op: self.end_op,
            base_op: self.start_op,
            inner_i,
            inner_end,
            op_indptr_for_dec_idx: ops,
            decorator_indices: self.decorator_indices,
            remaining,
        };
        proof {
            lemma_links_split(&self);
            lemma_links_len(&self);
        }
        it
    }
}

/// Each term of the announced count is non-negative on an iterable view, so partial counts are
/// at most the whole count.
proof fn lemma_announced_count_nonneg(ops: Seq<usize>, lo: int, mid: int, hi: int)
    requires
        0 <= lo <= mid <= hi <= ops.len(),
        monotone(ops),
    ensures
        0 <= announced_count(ops, lo, mid) <= announced_count(ops, lo, hi),
        mid < hi ==> announced_count(ops, lo, mid) + ((if mid + 1 < ops.len() {
            ops[mid + 1] as int
        } else {
            ops[mid] as int
        }) - ops[mid]) == announced_count(ops, lo, mid + 1),
        mid < hi ==> (if mid + 1 < ops.len() {
            ops[mid + 1] as int
        } else {
            ops[mid] as int
        }) >= ops[mid],
    decreases hi - mid,
{
    if mid < hi {
        lemma_announced_count_nonneg(ops, lo, mid + 1, hi);
        if mid + 1 < ops.len() {
            assert(ops[mid] <= ops[mid + 1]);
        }
    }
    lemma_announced_count_nonneg_base(ops, lo, mid);
}

proof fn lemma_announced_count_nonneg_base(ops: Seq<usize>, lo: int, mid: int)
    requires
        0 <= lo <= mid <= ops.len(),
        monotone(ops),
    ensures
        announced_count(ops, lo, mid) >= 0,
    decreases mid - lo,
{
    if lo < mid {
        let i = mid - 1;
        if i + 1 < ops.len() {
            assert(ops[i] <= ops[i + 1]);
        }
        lemma_announced_count_nonneg_base(ops, lo, mid - 1);
    }
}

/// The pairs of `[lo, hi)` are those of the first operation followed by those of the rest.
proof fn lemma_pairs_front(ops: Seq<usize>, decorators: Seq<DecoratorId>, lo: int, hi: int, base: int)
    requires
        lo < hi,
    ensures
        pairs_between(ops, decorators, lo, hi, base) == decorators.subrange(
            ops[lo] as int,
            ops[lo + 1] as int,
        ).map_values(|d: DecoratorId| ((lo - base) as usize, d)) + pairs_between(
            ops,
            decorators,
            lo + 1,
            hi,
            base,
        ),
    decreases hi - lo,
{
    if hi - 1 > lo {
        lemma_pairs_front(ops, decorators, lo, hi - 1, base);
        assert(pairs_between(ops, decorators, lo, hi, base) =~= decorators.subrange(
            ops[lo] as int,
            ops[lo + 1] as int,
        ).map_values(|d: DecoratorId| ((lo - base) as usize, d)) + pairs_between(
            ops,
            decorators,
            lo + 1,
            hi,
            base,
        ));
    } else {
        assert(pairs_between(ops, decorators, lo, hi - 1, base) =~= Seq::empty());
        assert(pairs_between(ops, decorators, lo + 1, hi, base) =~= Seq::empty());
    }
}

proof fn lemma_links_split(links: &DecoratedLinks)
    requires
        links.iterable(),
    ensures
        links.start() < links.end() && links.start() + 1 < links.ops().len() ==> links.links()
            == links.decorators().subrange(
            links.ops()[links.start()] as int,
            links.ops()[links.start() + 1] as int,
        ).map_values(|d: DecoratorId| (0usize, d)) + pairs_between(
            links.ops(),
            links.decorators(),
            links.start() + 1,
            links.reach(),
            links.start(),
        ),
        !(links.start() < links.end() && links.start() + 1 < links.ops().len()) ==> links.links()
            == Seq::<DecoratedOpLink>::empty(),
{
    if links.start() < links.end() && links.start() + 1 < links.ops().len() {
        lemma_pairs_front(
            links.ops(),
            links.decorators(),
            links.start(),
            links.reach(),
            links.start(),
        );
    } else {
        assert(links.reach() <= links.start());
    }
}

/// On ordered pointers below the last one, the announced count of `[lo, hi)` is the number of
/// pairs there: the distance between the two pointers.
proof fn lemma_pairs_len(ops: Seq<usize>, decorators: Seq<DecoratorId>, lo: int, hi: int, base: int)
    requires
        0 <= lo <= hi < ops.len(),
        monotone(ops),
        bounded_by(ops, decorators.len()),
    ensures
        pairs_between(ops, decorators, lo, hi, base).len() == ops[hi] - ops[lo],
        announced_count(ops, lo, hi) == ops[hi] - ops[lo],
    decreases hi - lo,
{
    if lo < hi {
        lemma_pairs_len(ops, decorators, lo, hi - 1, base);
        assert(ops[hi - 1] <= ops[hi]);
        assert(ops[hi] <= decorators.len());
    }
}

/// The announced count of an iterable view is exactly the number of pairs it yields: the
/// distance between its first pointer and the pointer where iteration stops.
proof fn lemma_links_len(links: &DecoratedLinks)
    requires
        links.iterable(),
    ensures
        links.start() < links.end() ==> announced_count(links.ops(), links.start(), links.end())
            == links.links().len(),
        links.start() < links.end() ==> links.links().len() == links.ops()[links.reach()]
            - links.ops()[links.start()],
        links.links().len() <= usize::MAX,
        links.start() >= links.end() ==> links.links().len() == 0,
{
    let ops = links.ops();
    let s = links.start();
    let e = links.end();
    if s < e {
        if e < ops.len() {
            lemma_pairs_len(ops, links.decorators(), s, e, s);
        } else {
            let r = ops.len() - 1;
            lemma_pairs_len(ops, links.decorators(), s, r, s);
            assert(announced_count(ops, s, e) == announced_count(ops, s, r));
        }
        assert(ops[links.reach()] <= links.decorators().len());
    } else {
        assert(links.links() =~= Seq::empty());
    }
}

/// The concrete iterator over `(relative operation index, decorator id)` pairs of a node.
pub struct DecoratedLinksIter<'a> {
    cur_op: usize,
    end_op: usize,
    base_op: usize,
    inner_i: usize,
    inner_end: usize,
    op_indptr_for_dec_idx: &'a [usize],
    decorator_indices: &'a [DecoratorId],
    remaining: usize,
}

impl<'a> DecoratedLinksIter<'a> {
    /// The last operation that iteration reaches.
    closed spec fn reach(&self) -> int {
        if self.end_op < self.op_indptr_for_dec_idx@.len() {
            self.end_op as int
        } else {
            self.op_indptr_for_dec_idx@.len() - 1
        }
    }

    /// The pairs that the iterator has yet to yield, in order.
    pub closed spec fn pending(&self) -> Seq<DecoratedOpLink> {
        if self.cur_op >= self.end_op {
            Seq::empty()
        } else {
            self.decorator_indices@.subrange(self.inner_i as int, self.inner_end as int).map_values(
                |d: DecoratorId| ((self.cur_op - self.base_op) as usize, d),
            ) + pairs_between(
                self.op_indptr_for_dec_idx@,
                self.decorator_indices@,
                self.cur_op + 1,
                self.reach(),
                self.base_op as int,
            )
        }
    }

    /// The count that the iterator announces as its length.
    pub closed spec fn remaining_count(&self) -> int {
        self.remaining as int
    }

    /// The iterator's state is consistent: the current slice lies within the ids, pointers are
    /// ordered and within the ids, and the announced count covers what is pending.
    pub closed spec fn inv(&self) -> bool {
        &&& self.base_op <= self.cur_op <= self.end_op <= self.op_indptr_for_dec_idx@.len()
        &&& monotone(self.op_indptr_for_dec_idx@)
        &&& bounded_by(self.op_indptr_for_dec_idx@, self.decorator_indices@.len())
        &&& self.cur_op < self.end_op ==> self.inner_i <= self.inner_end
            <= self.decorator_indices@.len()
        &&& self.remaining == self.pending().len()
    }

    /// The remaining count is exactly the number of pairs still to come.
    pub proof fn lemma_remaining_is_pending(&self)
        requires
            self.inv(),
        ensures
            self.remaining_count() == self.pending().len(),
    {
    }

    /// Moves to the next operation of the node and loads its slice, if the pointers allow.
    fn advance_outer(&mut self) -> (r: bool)
        requires
            old(self).cur_op < old(self).end_op,
            old(self).end_op <= old(self).op_indptr_for_dec_idx@.len(),
        ensures
            final(self).cur_op == old(self).cur_op + 1,
            final(self).end_op == old(self).end_op,
            final(self).base_op == old(self).base_op,
            final(self).op_indptr_for_dec_idx == old(self).op_indptr_for_dec_idx,
            final(self).decorator_indices == old(self).decorator_indices,
            final(self).remaining == old(self).remaining,
            r == (final(self).cur_op < final(self).end_op && final(self).cur_op + 1
                < final(self).op_indptr_for_dec_idx@.len()),
            r ==> final(self).inner_i == final(self).op_indptr_for_dec_idx@[final(self).cur_op as int]
                && final(self).inner_end == final(self).op_indptr_for_dec_idx@[final(self).cur_op + 1],
            !r ==> final(self).inner_i == old(self).inner_i && final(self).inner_end == old(self).inner_end,
    {
        self.cur_op = self.cur_op + 1;
        if self.cur_op >= self.end_op {
            return false;
        }
        if self.cur_op + 1 >= self.op_indptr_for_dec_idx.len() {
            return false;
        }
        let s = self.op_indptr_for_dec_idx[self.cur_op];
        let e = self.op_indptr_for_dec_idx[self.cur_op + 1];
        self.inner_i = s;
        self.inner_end = e;
        true
    }

    /// The next pair, if any.
    pub fn next(&mut self) -> (r: Option<DecoratedOpLink>)
        requires
            old(self).inv(),
        ensures
            final(self).inv(),
            old(self).pending().len() == 0 ==> r is None && final(self).pending() == old(self).pending() && final(self).remaining_count() == old(self).remaining_count(),
            old(self).pending().len() > 0 ==> r == Some(old(self).pending()[0]) && final(self).pending() == old(self).pending().drop_first() && final(self).remaining_count()
                == old(self).remaining_count() - 1,
    {
        let ghost p0 = self.pending();
        let ghost r0 = self.remaining;
        while self.cur_op < self.end_op
            invariant
                self.inv(),
                self.pending() == p0,
                self.remaining == r0,
                p0 == old(self).pending(),
                r0 == old(self).remaining,
            ensures
                self.inv(),
                self.pending() == p0,
                self.remaining == r0,
                p0.len() == 0,
            decreases self.end_op - self.cur_op,
        {
            if self.inner_i < self.inner_end {
                let rel_op = self.cur_op - self.base_op;
                let id = self.decorator_indices[self.inner_i];
                let ghost before = *self;
                self.inner_i = self.inner_i + 1;
                self.remaining = self.remaining - 1;
                proof {
                    let inner = before.decorator_indices@.subrange(
                        before.inner_i as int,
                        before.inner_end as int,
                    ).map_values(|d: DecoratorId| ((before.cur_op - before.base_op) as usize, d));
                    let rest = pairs_between(
                        before.op_indptr_for_dec_idx@,
                        before.decorator_indices@,
                        before.cur_op + 1,
                        before.reach(),
                        before.base_op as int,
                    );
                    assert(p0 == inner + rest);
                    assert(inner.len() > 0);
                    assert(p0[0] == inner[0]);
                    assert(inner[0] == (rel_op, id));
                    assert(self.pending() =~= p0.drop_first());
                }
                return Some((rel_op, id));
            }
            let ghost before = *self;
            let advanced = self.advance_outer();
            proof {
                assert(before.inner_i >= before.inner_end);
                assert(before.decorator_indices@.subrange(
                    before.inner_i as int,
                    before.inner_end as int,
                ) =~= Seq::empty());
                if advanced {
                    lemma_pairs_front(
                        self.op_indptr_for_dec_idx@,
                        self.decorator_indices@,
                        self.cur_op as int,
                        self.reach(),
                        self.base_op as int,
                    );
                    assert(self.op_indptr_for_dec_idx@[self.cur_op as int]
                        <= self.op_indptr_for_dec_idx@[self.cur_op + 1]);
                    assert(self.pending() =~= p0);
                } else if self.cur_op < self.end_op {
                    assert(self.decorator_indices@.subrange(
                        self.inner_i as int,
                        self.inner_end as int,
                    ) =~= Seq::empty());
                    assert(self.pending() =~= p0);
                    assert(self.pending() =~= Seq::empty());
                } else {
                    assert(self.pending() =~= Seq::empty());
                }
            }
            if !advanced {
                break;
            }
        }
        None
    }

    /// The exact number of pairs left.
    pub fn len(&self) -> (r: usize)
        ensures
            r == self.remaining_count(),
            self.inv() ==> r == self.pending().len(),
    {
        self.remaining
    }
}

// ---------------------------------------------------------------------------------------------
// Links against the per-operation listing

/// Flattens a per-operation listing `(operation, ids)` into `(operation, id)` pairs, in order.
pub open spec fn flat_links(listing: Seq<(usize, Seq<DecoratorId>)>) -> Seq<DecoratedOpLink>
    decreases listing.len(),
{
    if listing.len() == 0 {
        Seq::empty()
    } else {
        let last = listing.last();
        flat_links(listing.drop_last()) + last.1.map_values(|d: DecoratorId| (last.0, d))
    }
}

/// The listing of the operations at pointer indices `[s, e)`, as `decorator_ids_for_node`
/// returns it.
pub open spec fn node_listing(v: CsrView, s: int, e: int) -> Seq<(usize, Seq<DecoratorId>)> {
    Seq::new((e - s) as nat, |j: int| (j as usize, v.slot(s + j)))
}

proof fn lemma_listing_pairs(v: CsrView, s: int, e: int)
    requires
        s <= e < v.op_ptrs.len(),
    ensures
        pairs_between(v.op_ptrs, v.decorators, s, e, s) == flat_links(node_listing(v, s, e)),
    decreases e - s,
{
    if s < e {
        lemma_listing_pairs(v, s, e - 1);
        assert(node_listing(v, s, e).drop_last() =~= node_listing(v, s, e - 1));
    } else {
        assert(node_listing(v, s, e) =~= Seq::empty());
    }
}

/// The flattened links of a node are exactly its per-operation listing flattened: for each
/// operation in order, one `(operation, id)` pair per decorator id of the operation. The links
/// view of a node of a consistent store can be iterated without fault.
pub proof fn lemma_links_flatten_listing(v: CsrView, node: MastNodeId, links: DecoratedLinks)
    requires
        v.wf(),
        v.op_range(node) is Ok,
        links.start() == v.op_range(node)->Ok_0.0,
        links.end() == v.op_range(node)->Ok_0.1,
        links.ops() == v.op_ptrs,
        links.decorators() == v.decorators,
    ensures
        links.iterable(),
        links.links() == flat_links(
            node_listing(v, links.start(), links.end()),
        ),
{
    let s = links.start();
    let e = links.end();
    let ops = v.op_ptrs;
    if s < e {
        if e < ops.len() {
            assert(links.reach() == e);
            lemma_listing_pairs(v, s, e);
        } else {
            assert(links.reach() == e - 1);
            lemma_listing_pairs(v, s, e - 1);
            let listing = node_listing(v, s, e);
            assert(listing.drop_last() =~= node_listing(v, s, e - 1));
            assert(listing.last().1 =~= Seq::<DecoratorId>::empty());
            assert(listing.last().1.map_values(|d: DecoratorId| (listing.last().0, d))
                =~= Seq::<DecoratedOpLink>::empty());
            assert(flat_links(listing) =~= flat_links(node_listing(v, s, e - 1)));
        }
    } else {
        assert(links.links() =~= Seq::empty());
        assert(node_listing(v, s, e) =~= Seq::empty());
    }
}

/// The mapping after nodes `0, 1, ..` are added in order to a new mapping, node `i` with the
/// op-indexed decorators `infos[i]`.
pub open spec fn mapping_after(infos: Seq<Seq<(usize, DecoratorId)>>) -> CsrView
    decreases infos.len(),
{
    if infos.len() == 0 {
        view_of(Seq::empty(), Seq::empty(), Seq::empty())
    } else {
        append_view(mapping_after(infos.drop_last()), infos.last())
    }
}

/// Every add of that sequence finds room: each node's end pointer fits, and the arrays stay
/// within `usize`.
pub open spec fn mapping_fits(infos: Seq<Seq<(usize, DecoratorId)>>) -> bool
    decreases infos.len(),
{
    infos.len() == 0 || {
        let v = mapping_after(infos.drop_last());
        &&& mapping_fits(infos.drop_last())
        &&& append_fits(v, infos.last())
        &&& append_view(v, infos.last()).decorators.len() <= usize::MAX
        &&& append_view(v, infos.last()).op_ptrs.len() <= usize::MAX
    }
}

/// Adding the next node in order to a mapping built by adding nodes in order gives the mapping
/// built by one more add: this is what `add_decorator_info_for_node` states for that call
/// (there are no nodes to fill in between), so a whole sequence of adds from `new()` ends in
/// `mapping_after` of the lists.
pub proof fn lemma_mapping_add_next(infos: Seq<Seq<(usize, DecoratorId)>>, info: Seq<(usize, DecoratorId)>)
    ensures
        append_view(with_empty_nodes(mapping_after(infos), 0), info) == mapping_after(infos.push(info)),
{
    assert(infos.push(info).drop_last() =~= infos);
}

/// A mapping built from `new()` by adding nodes `0..n` in order, each with its op-indexed
/// decorators ordered by operation index, reads back for every node and every operation exactly
/// the ids added for them; it stays consistent and laid out as appends leave it.
pub proof fn lemma_mapping_after_reads(infos: Seq<Seq<(usize, DecoratorId)>>, m: u32, op: nat)
    requires
        infos.len() < max_node_ptrs(),
        forall|i: int| 0 <= i < infos.len() ==> sorted_by_op(#[trigger] infos[i]),
        mapping_fits(infos),
    ensures
        mapping_after(infos).wf(),
        mapping_after(infos).tight(),
        mapping_after(infos).num_nodes() == infos.len(),
        m < infos.len() ==> mapping_after(infos).op_decorators(MastNodeId(m), op) == Ok::<
            Seq<DecoratorId>,
            DecoratorStorageError,
        >(ids_for_op(infos[m as int], op)),
    decreases infos.len(),
{
    if infos.len() > 0 {
        let prev = infos.drop_last();
        let info = infos.last();
        assert forall|i: int| 0 <= i < prev.len() implies sorted_by_op(#[trigger] prev[i]) by {
            assert(prev[i] == infos[i]);
        }
        lemma_mapping_after_reads(prev, m, op);
        let v = mapping_after(prev);
        lemma_append_wf(v, info);
        lemma_append_tight(v, info);
        let node = MastNodeId((infos.len() - 1) as u32);
        lemma_append_then_read(v, node, info);
        if m < infos.len() - 1 {
            lemma_append_keeps_earlier(v, info, MastNodeId(m), op);
            assert(prev[m as int] == infos[m as int]);
        }
    }
}

/// The listing of operations `0..n` with the ids that `info` attaches to each.
pub open spec fn ids_listing(info: Seq<(usize, DecoratorId)>, n: nat) -> Seq<(usize, Seq<DecoratorId>)> {
    Seq::new(n, |j: int| (j as usize, ids_for_op(info, j as nat)))
}

proof fn lemma_flat_ids_prefix(info: Seq<(usize, DecoratorId)>, k: nat)
    requires
        sorted_by_op(info),
        k <= usize::MAX + 1,
    ensures
        flat_links(ids_listing(info, k)) == info.take(cursor(info, k) as int),
    decreases k,
{
    lemma_cursor_monotone(info, 0, k);
    if k == 0 {
        assert(info.take(0) =~= Seq::<(usize, DecoratorId)>::empty());
    } else {
        let p = (k - 1) as nat;
        lemma_flat_ids_prefix(info, p);
        assert(ids_listing(info, k).drop_last() =~= ids_listing(info, p));
        lemma_cursor_run_is_ids(info, p);
        lemma_cursor_monotone(info, p, k);
        lemma_cursor_sorted(info, p);
        lemma_cursor_sorted(info, k);
        let lo = cursor(info, p) as int;
        let hi = cursor(info, k) as int;
        let run = ids_for_op(info, p).map_values(|d: DecoratorId| (p as usize, d));
        assert(run =~= info.subrange(lo, hi)) by {
            assert forall|j: int| 0 <= j < hi - lo implies run[j] == info.subrange(lo, hi)[j] by {
                assert(info[lo + j].0 >= p);
                assert(info[lo + j].0 < k);
            }
        }
        assert(info.take(hi) =~= info.take(lo) + info.subrange(lo, hi));
    }
}

/// Ordered entries, all of whose operation indices are below `n`, are what the listing of
/// operations `0..n` with their ids flattens to.
pub proof fn lemma_flat_ids(info: Seq<(usize, DecoratorId)>, n: nat)
    requires
        sorted_by_op(info),
        n <= usize::MAX + 1,
        forall|j: int| 0 <= j < info.len() ==> (#[trigger] info[j]).0 < n,
    ensures
        flat_links(ids_listing(info, n)) == info,
{
    lemma_flat_ids_prefix(info, n);
    lemma_cursor_sorted(info, n);
    lemma_cursor_monotone(info, 0, n);
    if cursor(info, n) < info.len() {
        assert(info[cursor(info, n) as int].0 >= n);
    }
    assert(info.take(info.len() as int) =~= info);
}

/// In a mapping built from `new()` by adding nodes `0..n` in order (each with its op-indexed
/// decorators ordered by operation index), the listing of a node's operations flattens to
/// exactly the `(operation, id)` pairs added for it, in the order they were added: what
/// iterating the node's links yields.
pub proof fn lemma_mapping_links(infos: Seq<Seq<(usize, DecoratorId)>>, m: u32)
    requires
        infos.len() < max_node_ptrs(),
        forall|i: int| 0 <= i < infos.len() ==> sorted_by_op(#[trigger] infos[i]),
        mapping_fits(infos),
        m < infos.len(),
    ensures
        mapping_after(infos).op_range(MastNodeId(m)) is Ok,
        ({
            let v = mapping_after(infos);
            let (s, e) = v.op_range(MastNodeId(m))->Ok_0;
            flat_links(node_listing(v, s as int, e as int)) == infos[m as int]
        }),
{
    let v = mapping_after(infos);
    let node = MastNodeId(m);
    let info = infos[m as int];
    lemma_mapping_after_reads(infos, m, 0);
    assert(v.op_range(node) is Ok);
    let (s, e) = v.op_range(node)->Ok_0;
    let n = (e - s) as nat;
    assert forall|j: int| 0 <= j < n implies #[trigger] node_listing(v, s as int, e as int)[j]
        == ids_listing(info, n)[j] by {
        lemma_mapping_after_reads(infos, m, j as nat);
        let i = s + j;
        if i + 1 < v.op_ptrs.len() {
            assert(v.op_ptrs[i] <= v.op_ptrs[i + 1]);
        }
    }
    assert(node_listing(v, s as int, e as int) =~= ids_listing(info, n));
    assert forall|j: int| 0 <= j < info.len() implies (#[trigger] info[j]).0 < n by {
        let o = info[j].0 as nat;
        if o >= n {
            lemma_mapping_after_reads(infos, m, o);
            lemma_cursor_run_is_ids(info, o);
            lemma_cursor_sorted(info, o);
            lemma_cursor_sorted(info, o + 1);
            lemma_cursor_monotone(info, o, o + 1);
            assert(cursor(info, o) <= j < cursor(info, o + 1));
            let run = info.subrange(cursor(info, o) as int, cursor(info, o + 1) as int);
            assert(run.map_values(|e: (usize, DecoratorId)| e.1).len() > 0);
        }
    }
    lemma_flat_ids(info, n);
}

} // verus!
