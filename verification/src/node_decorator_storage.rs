//! Node-level decorator storage (`before_enter` and `after_exit`) in CSR layout.
//!
//! For node `i`, its `before_enter` decorators are
//! `before_enter_decorators[node_indptr_for_before[i]..node_indptr_for_before[i + 1]]`, and its
//! `after_exit` decorators are
//! `after_exit_decorators[node_indptr_for_after[i]..node_indptr_for_after[i + 1]]`.
use vstd::prelude::*;

use crate::csr::{bounded_by, max_node_ptrs, monotone, push_if_room, push_node_ptr};
use crate::ids::{DecoratorId, MastNodeId};

verus! {

/// `before_enter` and `after_exit` decorators of all nodes, each list in CSR layout.
#[derive(Debug, Clone, PartialEq, Eq)]
pub struct NodeDecoratorStorage {
    /// All `before_enter` decorators, concatenated across all nodes.
    pub before_enter_decorators: Vec<DecoratorId>,
    /// All `after_exit` decorators, concatenated across all nodes.
    pub after_exit_decorators: Vec<DecoratorId>,
    /// Index pointers for `before_enter` decorators: the range of node `i` is
    /// `node_indptr_for_before[i]..node_indptr_for_before[i + 1]`.
    pub node_indptr_for_before: Vec<usize>,
    /// Index pointers for `after_exit` decorators: the range of node `i` is
    /// `node_indptr_for_after[i]..node_indptr_for_after[i + 1]`.
    pub node_indptr_for_after: Vec<usize>,
}

/// One CSR list of node-level decorators: the decorators and their node pointers.
pub ghost struct NodeList {
    pub decorators: Seq<DecoratorId>,
    pub ptrs: Seq<usize>,
}

/// The mathematical model of the storage: its `before_enter` and `after_exit` lists.
pub ghost struct NodeDecoratorView {
    pub before: NodeList,
    pub after: NodeList,
}

impl View for NodeDecoratorStorage {
    type V = NodeDecoratorView;

    open spec fn view(&self) -> NodeDecoratorView {
        NodeDecoratorView {
            before: NodeList {
                decorators: self.before_enter_decorators@,
                ptrs: self.node_indptr_for_before@,
            },
            after: NodeList {
                decorators: self.after_exit_decorators@,
                ptrs: self.node_indptr_for_after@,
            },
        }
    }
}

/// `s` after `count` attempts to push `x`, each refused once the vector is full.
pub open spec fn padded(s: Seq<usize>, count: nat, x: usize) -> Seq<usize>
    decreases count,
{
    if count == 0 {
        s
    } else {
        push_if_room(padded(s, (count - 1) as nat, x), x)
    }
}

/// `p` with the start pointer of `node` set to `start`: written in place when `p` reaches
/// `node`, otherwise `p` is padded with `start` up to it.
pub open spec fn placed(p: Seq<usize>, node: MastNodeId, start: usize) -> Seq<usize> {
    if p.len() > node.index() {
        p.update(node.index() as int, start)
    } else {
        padded(p, (node.index() + 1 - p.len()) as nat, start)
    }
}

/// How many pointers are pushed so that `node` has a start pointer.
pub open spec fn pad_count(ptrs_len: nat, node: MastNodeId) -> nat {
    if ptrs_len <= node.index() {
        (node.index() + 1 - ptrs_len) as nat
    } else {
        0
    }
}

impl NodeList {
    /// The decorators of `node`: empty when `node` has no end pointer or its pointers do not
    /// delimit a range of the decorators.
    pub open spec fn get(self, node: MastNodeId) -> Seq<DecoratorId> {
        let n = node.index() as int;
        if n + 1 >= self.ptrs.len() {
            Seq::empty()
        } else {
            let s = self.ptrs[n];
            let e = self.ptrs[n + 1];
            if s > e || e > self.decorators.len() {
                Seq::empty()
            } else {
                self.decorators.subrange(s as int, e as int)
            }
        }
    }

    /// The list after `node` gets `ids`, its pointer vector first padded with `pad` pushes:
    /// the node starts at the current end of the decorators and ends after `ids`.
    pub open spec fn with_node(self, node: MastNodeId, pad: nat, ids: Seq<DecoratorId>) -> NodeList {
        let start = self.decorators.len() as usize;
        let p1 = placed(padded(self.ptrs, pad, start), node, start);
        let end = (self.decorators.len() + ids.len()) as usize;
        let p2 = if p1.len() > node.index() + 1 {
            p1.update(node.index() as int + 1, end)
        } else {
            push_if_room(p1, end)
        };
        NodeList { decorators: self.decorators + ids, ptrs: p2 }
    }

    /// The last pointer closes the decorators.
    pub open spec fn closed(self) -> bool {
        self.ptrs.len() > 0 ==> self.ptrs.last() == self.decorators.len()
    }

    /// The list is consistent: pointers never decrease, stay within the decorators, the last
    /// one closes the decorators, and there are at most as many as node ids can index.
    pub open spec fn wf(self) -> bool {
        &&& monotone(self.ptrs)
        &&& bounded_by(self.ptrs, self.decorators.len())
        &&& self.closed()
        &&& self.ptrs.len() <= max_node_ptrs()
    }

    /// The pointers never decrease, stay within the decorators, and are at most as many as node
    /// ids can index (the closing pointer may be missing).
    pub open spec fn ordered(self) -> bool {
        &&& monotone(self.ptrs)
        &&& bounded_by(self.ptrs, self.decorators.len())
        &&& self.ptrs.len() <= max_node_ptrs()
    }

    /// The closing pointer is missing: there is no pointer, or the last one is not the end of
    /// the decorators.
    pub open spec fn closing_missing(self) -> bool {
        self.ptrs.len() == 0 || self.ptrs.last() != self.decorators.len()
    }

    /// The list once its closing pointer is pushed where it is missing.
    pub open spec fn finalized(self) -> NodeList {
        if self.closing_missing() {
            NodeList { ptrs: push_if_room(self.ptrs, self.decorators.len() as usize), ..self }
        } else {
            self
        }
    }
}

impl NodeDecoratorView {
    /// Both lists are consistent and have one pointer per node plus the closing one.
    pub open spec fn wf(self) -> bool {
        &&& self.before.wf()
        &&& self.after.wf()
        &&& self.before.ptrs.len() == self.after.ptrs.len()
    }
}

/// Recording a node at or past the last one keeps a list consistent; the list then has one
/// pointer past the node.
pub proof fn lemma_with_node_wf(list: NodeList, node: MastNodeId, ids: Seq<DecoratorId>)
    requires
        list.ordered(),
        node.index() + 1 >= list.ptrs.len(),
        node.index() + 2 <= max_node_ptrs(),
        list.decorators.len() + ids.len() <= usize::MAX,
    ensures
        list.with_node(node, pad_count(list.ptrs.len(), node), ids).wf(),
        list.with_node(node, pad_count(list.ptrs.len(), node), ids).ptrs.len() == node.index() + 2,
{
    let k = pad_count(list.ptrs.len(), node);
    let start = list.decorators.len() as usize;
    let end = (list.decorators.len() + ids.len()) as usize;
    let n = node.index() as int;
    lemma_padded_len(list.ptrs, k, start);
    let p0 = padded(list.ptrs, k, start);
    assert(p0.len() == n + 1);
    assert(placed(p0, node, start) == p0.update(n, start));
    let p1 = p0.update(n, start);
    let w = list.with_node(node, k, ids);
    assert(w.ptrs == p1.push(end));
    assert forall|i: int| 0 <= i < w.ptrs.len() implies #[trigger] w.ptrs[i] <= if i == n + 1 {
        end as int
    } else {
        start as int
    } by {
        if i < list.ptrs.len() && i != n {
            assert(list.ptrs[i] <= list.decorators.len());
        }
    }
    assert forall|i: int, j: int| 0 <= i <= j < w.ptrs.len() implies #[trigger] w.ptrs[i]
        <= #[trigger] w.ptrs[j] by {
        if j < list.ptrs.len() && j != n {
            assert(list.ptrs[i] <= list.ptrs[j]);
        } else if j == n + 1 {
            assert(w.ptrs[i] <= start || i == n + 1);
        } else {
            assert(w.ptrs[j] == start);
        }
    }
}

/// Padding a pointer vector with pushes that find room lengthens it by the pushes.
proof fn lemma_padded_len(s: Seq<usize>, count: nat, x: usize)
    requires
        s.len() + count <= max_node_ptrs(),
    ensures
        padded(s, count, x).len() == s.len() + count,
        forall|i: int| 0 <= i < s.len() ==> #[trigger] padded(s, count, x)[i] == s[i],
        forall|i: int|
            s.len() <= i < s.len() + count ==> #[trigger] padded(s, count, x)[i] == x,
    decreases count,
{
    if count > 0 {
        lemma_padded_len(s, (count - 1) as nat, x);
    }
}

/// Padding never shortens, and stops at the largest length.
proof fn lemma_padded_at_least(s: Seq<usize>, count: nat, x: usize)
    ensures
        padded(s, count, x).len() >= s.len(),
        padded(s, count, x).len() >= if s.len() + count <= max_node_ptrs() {
            s.len() + count
        } else {
            max_node_ptrs()
        },
    decreases count,
{
    if count > 0 {
        lemma_padded_at_least(s, (count - 1) as nat, x);
    }
}

impl NodeDecoratorStorage {
    /// An empty storage.
    pub fn new() -> (s: Self)
        ensures
            s@.before.decorators.len() == 0,
            s@.before.ptrs.len() == 0,
            s@.after.decorators.len() == 0,
            s@.after.ptrs.len() == 0,
    {
        NodeDecoratorStorage {
            before_enter_decorators: Vec::new(),
            after_exit_decorators: Vec::new(),
            node_indptr_for_before: Vec::new(),
            node_indptr_for_after: Vec::new(),
        }
    }

    /// An empty storage, with room reserved for the given numbers of nodes and decorators.
    pub fn with_capacity(
        nodes_capacity: usize,
        before_decorators_capacity: usize,
        after_decorators_capacity: usize,
    ) -> (s: Self)
        requires
            nodes_capacity < usize::MAX,
        ensures
            s@.before.decorators.len() == 0,
            s@.before.ptrs.len() == 0,
            s@.after.decorators.len() == 0,
            s@.after.ptrs.len() == 0,
    {
        NodeDecoratorStorage {
            before_enter_decorators: Vec::with_capacity(before_decorators_capacity),
            after_exit_decorators: Vec::with_capacity(after_decorators_capacity),
            node_indptr_for_before: Vec::with_capacity(nodes_capacity + 1),
            node_indptr_for_after: Vec::with_capacity(nodes_capacity + 1),
        }
    }

    /// Records the `before` and `after` decorators of `node_id`: its start pointers are set to
    /// the current ends of the decorator lists (nodes without pointers yet get empty ranges
    /// there first), the decorators are appended, and the end pointers are set after them.
    pub fn add_node_decorators(
        &mut self,
        node_id: MastNodeId,
        before: &[DecoratorId],
        after: &[DecoratorId],
    )
        requires
            node_id.index() < max_node_ptrs() || (old(self)@.before.ptrs.len() > node_id.index()
                && old(self)@.after.ptrs.len() > node_id.index()),
            old(self)@.before.ptrs.len() <= max_node_ptrs(),
        ensures
            final(self)@.before == old(self)@.before.with_node(
                node_id,
                pad_count(old(self)@.before.ptrs.len(), node_id),
                before@,
            ),
            final(self)@.after == old(self)@.after.with_node(
                node_id,
                pad_count(old(self)@.before.ptrs.len(), node_id),
                after@,
            ),
            (old(self)@.wf() && node_id.index() + 1 >= old(self)@.before.ptrs.len()
                && node_id.index() + 2 <= max_node_ptrs()) ==> final(self)@.wf(),
            (old(self)@.before.ordered() && old(self)@.after.ordered() && old(self)@.before.ptrs.len()
                == old(self)@.after.ptrs.len() && node_id.index() + 1 >= old(self)@.before.ptrs.len()
                && node_id.index() + 2 <= max_node_ptrs()) ==> (final(self)@.wf() && final(
                self)@.before.ptrs.len() == node_id.index() + 2),
    {
        let node = node_id.to_usize();
        let ghost k = pad_count(self@.before.ptrs.len(), node_id);
        let ghost b0 = self@.before;
        let ghost a0 = self@.after;
        let before_len0 = self.before_enter_decorators.len();
        let after_len0 = self.after_exit_decorators.len();
        let ghost bstart = before_len0;
        let ghost astart = after_len0;
        proof {
            lemma_padded_at_least(a0.ptrs, k, astart);
            if b0.ptrs.len() <= node {
                lemma_padded_len(b0.ptrs, k, bstart);
            }
        }
        let mut pushes: usize = 0;
        while self.node_indptr_for_before.len() <= node
            invariant
                b0.ptrs.len() <= node ==> pushes <= k && self.node_indptr_for_before@ == padded(
                    b0.ptrs,
                    pushes as nat,
                    bstart,
                ) && self.node_indptr_for_before@.len() == b0.ptrs.len() + pushes,
                b0.ptrs.len() > node ==> pushes == 0 && self.node_indptr_for_before@ == b0.ptrs,
                self.node_indptr_for_after@ == padded(a0.ptrs, pushes as nat, astart),
                self.before_enter_decorators@ == b0.decorators,
                self.after_exit_decorators@ == a0.decorators,
                bstart == b0.decorators.len(),
                astart == a0.decorators.len(),
                k == pad_count(b0.ptrs.len(), node_id),
                node == node_id.index(),
                node_id.index() < max_node_ptrs() || b0.ptrs.len() > node_id.index(),
                b0.ptrs.len() <= node ==> padded(b0.ptrs, k, bstart).len() == node + 1,
            decreases node + 1 - self.node_indptr_for_before@.len(),
        {
            proof {
                lemma_padded_len(b0.ptrs, (pushes + 1) as nat, bstart);
            }
            let current_len = self.before_enter_decorators.len();
            let _ = push_node_ptr(&mut self.node_indptr_for_before, current_len);
            let current_len = self.after_exit_decorators.len();
            let _ = push_node_ptr(&mut self.node_indptr_for_after, current_len);
            pushes = pushes + 1;
        }
        assert(pushes == k);
        proof {
            lemma_padded_at_least(a0.ptrs, k, astart);
        }
        // This node starts at the current end of the `before_enter` decorators.
        let before_start = self.before_enter_decorators.len();
        self.node_indptr_for_before.set(node, before_start);
        self.before_enter_decorators.extend_from_slice(before);
        let before_end = self.before_enter_decorators.len();
        if self.node_indptr_for_before.len() - 1 > node {
            self.node_indptr_for_before.set(node + 1, before_end);
        } else {
            let _ = push_node_ptr(&mut self.node_indptr_for_before, before_end);
        }
        // This node starts at the current end of the `after_exit` decorators.
        let after_start = self.after_exit_decorators.len();
        let ghost ap0 = self.node_indptr_for_after@;
        let ghost bdec = self.before_enter_decorators@;
        let ghost bptr = self.node_indptr_for_before@;
        if self.node_indptr_for_after.len() > node {
            self.node_indptr_for_after.set(node, after_start);
        } else {
            let mut extra: usize = 0;
            proof {
                lemma_padded_len(ap0, (node + 1 - ap0.len()) as nat, after_start);
            }
            while self.node_indptr_for_after.len() <= node
                invariant
                    ap0.len() <= node,
                    node < max_node_ptrs(),
                    extra <= node + 1 - ap0.len(),
                    self.node_indptr_for_after@ == padded(ap0, extra as nat, after_start),
                    self.node_indptr_for_after@.len() == ap0.len() + extra,
                    self.after_exit_decorators@ == a0.decorators,
                    after_start == a0.decorators.len(),
                    self.before_enter_decorators@ == bdec,
                    self.node_indptr_for_before@ == bptr,
                decreases node + 1 - self.node_indptr_for_after@.len(),
            {
                proof {
                    lemma_padded_len(ap0, (extra + 1) as nat, after_start);
                }
                let _ = push_node_ptr(&mut self.node_indptr_for_after, after_start);
                extra = extra + 1;
            }
        }
        self.after_exit_decorators.extend_from_slice(after);
        let after_end = self.after_exit_decorators.len();
        if self.node_indptr_for_after.len() - 1 > node {
            self.node_indptr_for_after.set(node + 1, after_end);
        } else {
            let _ = push_node_ptr(&mut self.node_indptr_for_after, after_end);
        }
        assert(self.before_enter_decorators@ =~= b0.decorators + before@);
        assert(self.after_exit_decorators@ =~= a0.decorators + after@);
        proof {
            if b0.ordered() && a0.ordered() && b0.ptrs.len() == a0.ptrs.len() && node + 1 >= b0.ptrs.len()
                && node + 2 <= max_node_ptrs() {
                lemma_with_node_wf(b0, node_id, before@);
                lemma_with_node_wf(a0, node_id, after@);
            }
        }
    }

    /// The `before_enter` decorators of `node_id` (empty when it has none recorded).
    pub fn get_before_decorators(&self, node_id: MastNodeId) -> (r: &[DecoratorId])
        ensures
            r@ == self@.before.get(node_id),
    {
        get_node_decorators(&self.before_enter_decorators, &self.node_indptr_for_before, node_id)
    }

    /// The `after_exit` decorators of `node_id` (empty when it has none recorded).
    pub fn get_after_decorators(&self, node_id: MastNodeId) -> (r: &[DecoratorId])
        ensures
            r@ == self@.after.get(node_id),
    {
        get_node_decorators(&self.after_exit_decorators, &self.node_indptr_for_after, node_id)
    }

    /// Pushes the closing pointer of each list where it is missing: onto an empty pointer
    /// vector, or after a last pointer that is not the end of the decorators. A storage whose
    /// nodes were all recorded in order is left as it is (its last node already ends there).
    pub fn finalize(&mut self)
        ensures
            final(self)@.before == old(self)@.before.finalized(),
            final(self)@.after == old(self)@.after.finalized(),
    {
        let bl = self.node_indptr_for_before.len();
        let b_end = self.before_enter_decorators.len();
        if bl == 0 || self.node_indptr_for_before[bl - 1] != b_end {
            let _ = push_node_ptr(&mut self.node_indptr_for_before, b_end);
        }
        let al = self.node_indptr_for_after.len();
        let a_end = self.after_exit_decorators.len();
        if al == 0 || self.node_indptr_for_after[al - 1] != a_end {
            let _ = push_node_ptr(&mut self.node_indptr_for_after, a_end);
        }
    }

    /// Does nothing: removing the decorators of one node would shift all later data, which
    /// this layout does not support.
    pub fn remove_decorators(&mut self, _node_id: MastNodeId)
        ensures
            final(self)@ == old(self)@,
    {
    }

    /// Clears all decorators and pointers.
    pub fn clear(&mut self)
        ensures
            final(self)@.before.decorators.len() == 0,
            final(self)@.before.ptrs.len() == 0,
            final(self)@.after.decorators.len() == 0,
            final(self)@.after.ptrs.len() == 0,
    {
        self.before_enter_decorators.clear();
        self.after_exit_decorators.clear();
        self.node_indptr_for_before = Vec::new();
        self.node_indptr_for_after = Vec::new();
    }

    /// The number of nodes: one less than the number of `before_enter` pointers (0 if none).
    pub fn len(&self) -> (r: usize)
        ensures
            r == if self@.before.ptrs.len() == 0 {
                0
            } else {
                self@.before.ptrs.len() - 1
            },
    {
        self.node_indptr_for_before.len().saturating_sub(1)
    }

    /// Whether the storage holds no node.
    pub fn is_empty(&self) -> (r: bool)
        ensures
            r == (self@.before.ptrs.len() <= 1),
    {
        self.len() == 0
    }
}

/// Reads the range of `node_id` in one CSR list.
fn get_node_decorators<'a>(
    decorators: &'a Vec<DecoratorId>,
    ptrs: &Vec<usize>,
    node_id: MastNodeId,
) -> (r: &'a [DecoratorId])
    ensures
        r@ == (NodeList { decorators: decorators@, ptrs: ptrs@ }).get(node_id),
{
    let node_idx = node_id.to_usize();
    if ptrs.len() == 0 || node_idx >= ptrs.len() - 1 {
        return vstd::slice::slice_subrange(decorators.as_slice(), 0, 0);
    }
    let start = ptrs[node_idx];
    let end = ptrs[node_idx + 1];
    if start > end || end > decorators.len() {
        return vstd::slice::slice_subrange(decorators.as_slice(), 0, 0);
    }
    vstd::slice::slice_subrange(decorators.as_slice(), start, end)
}

impl Default for NodeDecoratorStorage {
    fn default() -> (s: Self)
        ensures
            s@.before.decorators.len() == 0,
            s@.before.ptrs.len() == 0,
            s@.after.decorators.len() == 0,
            s@.after.ptrs.len() == 0,
    {
        Self::new()
    }
}

// ---------------------------------------------------------------------------------------------
// Laws

/// Reading a node right after its decorators are recorded gives exactly those decorators,
/// whatever the storage held, as long as the node's end pointer finds room.
pub proof fn lemma_node_read_after_write(
    list: NodeList,
    node: MastNodeId,
    pad: nat,
    ids: Seq<DecoratorId>,
)
    requires
        node.index() + 2 <= max_node_ptrs(),
        list.decorators.len() + ids.len() <= usize::MAX,
        padded(list.ptrs, pad, list.decorators.len() as usize).len() > node.index(),
    ensures
        list.with_node(node, pad, ids).get(node) == ids,
{
    let w = list.with_node(node, pad, ids);
    let n = node.index() as int;
    let start = list.decorators.len() as usize;
    let p1 = padded(list.ptrs, pad, start).update(n, start);
    assert(w.ptrs.len() > n + 1);
    assert(w.ptrs[n] == start);
    assert(w.ptrs[n + 1] == list.decorators.len() + ids.len());
    assert(w.decorators.subrange(start as int, (list.decorators.len() + ids.len()) as int) =~= ids);
}

/// Recording the next node of a closed list keeps what every earlier node reads, and the list
/// stays closed.
pub proof fn lemma_node_append_keeps_earlier(
    list: NodeList,
    node: MastNodeId,
    ids: Seq<DecoratorId>,
    earlier: MastNodeId,
)
    requires
        list.closed(),
        bounded_by(list.ptrs, list.decorators.len()),
        list.ptrs.len() == node.index() + 1,
        node.index() + 2 <= max_node_ptrs(),
        list.decorators.len() + ids.len() <= usize::MAX,
        earlier.index() < node.index(),
    ensures
        list.with_node(node, 0, ids).get(earlier) == list.get(earlier),
        list.with_node(node, 0, ids).closed(),
{
    let w = list.with_node(node, 0, ids);
    let e = earlier.index() as int;
    let n = node.index() as int;
    assert(list.ptrs[n] == list.decorators.len());
    assert(w.ptrs[e] == list.ptrs[e]);
    assert(w.ptrs[e + 1] == list.ptrs[e + 1]);
    let s = list.ptrs[e];
    let t = list.ptrs[e + 1];
    assert(t <= list.decorators.len());
    if s <= t && t <= list.decorators.len() {
        assert(w.decorators.subrange(s as int, t as int) =~= list.decorators.subrange(
            s as int,
            t as int,
        ));
    }
}

/// One list after recording nodes `0, 1, ..` in order, node `i` getting `lists[i]`, from an
/// empty storage (what `add_node_decorators` does to each list when nodes are recorded in
/// order).
pub open spec fn list_after(lists: Seq<Seq<DecoratorId>>) -> NodeList
    decreases lists.len(),
{
    if lists.len() == 0 {
        NodeList { decorators: Seq::empty(), ptrs: Seq::empty() }
    } else {
        let prev = list_after(lists.drop_last());
        let node = MastNodeId((lists.len() - 1) as u32);
        prev.with_node(node, pad_count(prev.ptrs.len(), node), lists.last())
    }
}

/// The total number of decorators of `lists`.
pub open spec fn total_len(lists: Seq<Seq<DecoratorId>>) -> nat
    decreases lists.len(),
{
    if lists.len() == 0 {
        0
    } else {
        total_len(lists.drop_last()) + lists.last().len()
    }
}

/// Recording nodes `0..n` in order from an empty storage and then finalizing gives every node
/// back its own decorators, and nothing for any later id; the list is consistent and holds
/// `n + 1` pointers.
pub proof fn lemma_adds_then_finalize(lists: Seq<Seq<DecoratorId>>, i: u32)
    requires
        lists.len() + 2 <= max_node_ptrs(),
        total_len(lists) <= usize::MAX,
    ensures
        list_after(lists).wf(),
        list_after(lists).decorators.len() == total_len(lists),
        list_after(lists).ptrs.len() == if lists.len() == 0 {
            0
        } else {
            lists.len() + 1
        },
        list_after(lists).finalized().ptrs.len() == lists.len() + 1,
        list_after(lists).finalized().get(MastNodeId(i)) == if i < lists.len() {
            lists[i as int]
        } else {
            Seq::<DecoratorId>::empty()
        },
    decreases lists.len(),
{
    let l = list_after(lists);
    let n = lists.len();
    if n == 0 {
        assert(l.finalized().ptrs =~= seq![0usize]);
    } else {
        let init = lists.drop_last();
        let prev = list_after(init);
        let node = MastNodeId((n - 1) as u32);
        lemma_adds_then_finalize(init, i);
        lemma_with_node_wf(prev, node, lists.last());
        assert(l.finalized() == l);
        if i < n - 1 {
            assert(init[i as int] == lists[i as int]);
            lemma_node_append_keeps_earlier(prev, node, lists.last(), MastNodeId(i));
        } else if i == n - 1 {
            lemma_padded_at_least(prev.ptrs, pad_count(prev.ptrs.len(), node), prev.decorators.len() as usize);
            lemma_node_read_after_write(prev, node, pad_count(prev.ptrs.len(), node), lists.last());
        }
    }
}

/// The storage after recording nodes `0, 1, ..` in order from an empty storage, node `i` getting
/// `befores[i]` and `afters[i]`.
pub open spec fn storage_after(befores: Seq<Seq<DecoratorId>>, afters: Seq<Seq<DecoratorId>>) -> NodeDecoratorView {
    NodeDecoratorView { before: list_after(befores), after: list_after(afters) }
}

/// Recording the next node, in order, on a storage built by recording nodes in order gives the
/// storage built by recording one more: this is what `add_node_decorators` states for that
/// call, so a whole sequence of calls from `new()` ends in `storage_after` of the lists.
pub proof fn lemma_storage_add_next(
    befores: Seq<Seq<DecoratorId>>,
    afters: Seq<Seq<DecoratorId>>,
    b: Seq<DecoratorId>,
    a: Seq<DecoratorId>,
)
    requires
        befores.len() == afters.len(),
        befores.len() + 3 <= max_node_ptrs(),
        total_len(befores) <= usize::MAX,
        total_len(afters) <= usize::MAX,
    ensures
        ({
            let v = storage_after(befores, afters);
            let node = MastNodeId(befores.len() as u32);
            let pad = pad_count(v.before.ptrs.len(), node);
            storage_after(befores.push(b), afters.push(a)) == NodeDecoratorView {
                before: v.before.with_node(node, pad, b),
                after: v.after.with_node(node, pad, a),
            }
        }),
{
    lemma_adds_then_finalize(befores, 0);
    lemma_adds_then_finalize(afters, 0);
    assert(befores.push(b).drop_last() =~= befores);
    assert(afters.push(a).drop_last() =~= afters);
}

/// Recording nodes `0..n` in order from an empty storage and then finalizing both lists gives
/// every node back its own `before_enter` and `after_exit` decorators, and nothing for any later
/// id; both lists hold `n + 1` pointers.
pub proof fn lemma_storage_adds_then_finalize(
    befores: Seq<Seq<DecoratorId>>,
    afters: Seq<Seq<DecoratorId>>,
    i: u32,
)
    requires
        befores.len() == afters.len(),
        befores.len() + 2 <= max_node_ptrs(),
        total_len(befores) <= usize::MAX,
        total_len(afters) <= usize::MAX,
    ensures
        ({
            let v = storage_after(befores, afters);
            &&& v.wf()
            &&& v.before.finalized().ptrs.len() == befores.len() + 1
            &&& v.after.finalized().ptrs.len() == afters.len() + 1
            &&& v.before.finalized().get(MastNodeId(i)) == if i < befores.len() {
                befores[i as int]
            } else {
                Seq::<DecoratorId>::empty()
            }
            &&& v.after.finalized().get(MastNodeId(i)) == if i < afters.len() {
                afters[i as int]
            } else {
                Seq::<DecoratorId>::empty()
            }
        }),
{
    lemma_adds_then_finalize(befores, i);
    lemma_adds_then_finalize(afters, i);
}

} // verus!
