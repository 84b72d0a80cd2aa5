//! The two-level compressed sparse row (CSR) layout shared by the op-indexed decorator
//! stores: its mathematical model, its reading rules and the append of one node.
//!
//! A store is three flat arrays:
//! - `decorators`: every decorator id, node after node, operation after operation;
//! - `op_ptrs`: for the operation at pointer index `i`, its decorators are
//!   `decorators[op_ptrs[i]..op_ptrs[i + 1]]`;
//! - `node_ptrs`: the operations of node `n` are the pointer indices
//!   `node_ptrs[n]..node_ptrs[n + 1]`.
use vstd::prelude::*;

use crate::decorator_storage::DecoratorStorageError;
use crate::ids::{DecoratorId, MastNodeId};

verus! {

/// The mathematical model of a two-level CSR store.
pub ghost struct CsrView {
    pub decorators: Seq<DecoratorId>,
    pub op_ptrs: Seq<usize>,
    pub node_ptrs: Seq<usize>,
}

/// A sequence of pointers that never decreases.
pub open spec fn monotone(s: Seq<usize>) -> bool {
    forall|i: int, j: int| 0 <= i <= j < s.len() ==> #[trigger] s[i] <= #[trigger] s[j]
}

/// Each pointer is at most the next one.
pub open spec fn adjacent_ordered(s: Seq<usize>, upto: int) -> bool {
    forall|i: int| 0 <= i && i + 1 < upto && i + 1 < s.len() ==> #[trigger] s[i] <= s[i + 1]
}

/// Ordered neighbours make a sequence that never decreases.
pub proof fn lemma_adjacent_monotone(s: Seq<usize>)
    requires
        adjacent_ordered(s, s.len() as int),
    ensures
        monotone(s),
{
    assert forall|i: int, j: int| 0 <= i <= j < s.len() implies #[trigger] s[i] <= #[trigger] s[j] by {
        lemma_adjacent_step(s, i, j);
    }
}

proof fn lemma_adjacent_step(s: Seq<usize>, i: int, j: int)
    requires
        adjacent_ordered(s, s.len() as int),
        0 <= i <= j < s.len(),
    ensures
        s[i] <= s[j],
    decreases j - i,
{
    if i < j {
        lemma_adjacent_step(s, i, j - 1);
        assert(s[j - 1] <= s[j]);
    }
}

/// Checks that each pointer is at most the next one.
pub(crate) fn pointers_ordered(s: &Vec<usize>) -> (r: bool)
    ensures
        r == monotone(s@),
{
    if s.len() == 0 {
        assert(monotone(s@));
        return true;
    }
    let mut i: usize = 0;
    while i < s.len() - 1
        invariant
            s@.len() > 0,
            i <= s@.len() - 1,
            adjacent_ordered(s@, i + 1),
        decreases s.len() - i,
    {
        if s[i] > s[i + 1] {
            return false;
        }
        i = i + 1;
    }
    assert(adjacent_ordered(s@, s@.len() as int));
    proof {
        lemma_adjacent_monotone(s@);
    }
    true
}

/// Every element of `s` is at most `bound`.
pub open spec fn bounded_by(s: Seq<usize>, bound: nat) -> bool {
    forall|i: int| 0 <= i < s.len() ==> #[trigger] s[i] <= bound
}

/// The largest number of entries a node-indexed pointer vector can hold: node ids are `u32`.
pub open spec fn max_node_ptrs() -> nat {
    u32::MAX as nat
}

/// Pushes `x` unless the node-indexed vector is full (it then stays as it is).
pub open spec fn push_if_room(s: Seq<usize>, x: usize) -> Seq<usize> {
    if s.len() < max_node_ptrs() {
        s.push(x)
    } else {
        s
    }
}

/// Pushes `x` onto a node-indexed pointer vector, as `IndexVec::push` does: the push is refused
/// (and `false` returned) when the vector already holds `u32::MAX` entries.
pub(crate) fn push_node_ptr(v: &mut Vec<usize>, x: usize) -> (pushed: bool)
    ensures
        final(v)@ == push_if_room(old(v)@, x),
        pushed == (old(v)@.len() < max_node_ptrs()),
{
    if v.len() < u32::MAX as usize {
        v.push(x);
        true
    } else {
        false
    }
}

/// The range `node_ptrs[node]..node_ptrs[node + 1]`, checked against the node pointers and
/// against `ops_len` operation pointers.
pub open spec fn ptr_range(node_ptrs: Seq<usize>, ops_len: nat, node: MastNodeId) -> Result<
    (usize, usize),
    DecoratorStorageError,
> {
    let n = node.index() as int;
    if n + 1 >= node_ptrs.len() {
        Err(DecoratorStorageError::NodeIndex(node))
    } else {
        let s = node_ptrs[n];
        let e = node_ptrs[n + 1];
        if s > e || e > ops_len {
            Err(DecoratorStorageError::InternalStructure)
        } else {
            Ok((s, e))
        }
    }
}

impl CsrView {
    /// The structural invariant kept by every store built through this crate: pointers never
    /// decrease, operation pointers stay within the decorators, node pointers stay within the
    /// operation pointers, and there are at most `u32::MAX` node pointers.
    pub open spec fn wf(self) -> bool {
        &&& monotone(self.op_ptrs)
        &&& monotone(self.node_ptrs)
        &&& bounded_by(self.op_ptrs, self.decorators.len())
        &&& bounded_by(self.node_ptrs, self.op_ptrs.len())
        &&& self.node_ptrs.len() <= max_node_ptrs()
        &&& self.decorators.len() <= usize::MAX
        &&& self.op_ptrs.len() <= usize::MAX
    }

    /// The number of nodes: one less than the number of node pointers (0 when there are none).
    pub open spec fn num_nodes(self) -> nat {
        if self.node_ptrs.len() == 0 {
            0
        } else {
            (self.node_ptrs.len() - 1) as nat
        }
    }

    /// The range of operation pointer indices of `node`, or why there is none.
    pub open spec fn op_range(self, node: MastNodeId) -> Result<(usize, usize), DecoratorStorageError> {
        ptr_range(self.node_ptrs, self.op_ptrs.len(), node)
    }

    /// The decorators of operation `op` of `node`: empty for an operation past the node's
    /// range, an error for an unknown node or for pointers that do not fit.
    pub open spec fn op_decorators(self, node: MastNodeId, op: nat) -> Result<
        Seq<DecoratorId>,
        DecoratorStorageError,
    > {
        match self.op_range(node) {
            Err(e) => Err(e),
            Ok((s, e)) => {
                if op >= e - s {
                    Ok(Seq::empty())
                } else {
                    let i = s + op;
                    if i + 1 >= self.op_ptrs.len() {
                        Ok(Seq::empty())
                    } else {
                        let ds = self.op_ptrs[i];
                        let de = self.op_ptrs[i + 1];
                        if ds > de || de > self.decorators.len() {
                            Err(DecoratorStorageError::InternalStructure)
                        } else {
                            Ok(self.decorators.subrange(ds as int, de as int))
                        }
                    }
                }
            },
        }
    }

    /// The decorators of the operation at pointer index `i` (no checks).
    pub open spec fn slot(self, i: int) -> Seq<DecoratorId> {
        if i + 1 < self.op_ptrs.len() {
            self.decorators.subrange(self.op_ptrs[i] as int, self.op_ptrs[i + 1] as int)
        } else {
            Seq::empty()
        }
    }

    /// Every operation of `node` can be read: each one below the last pointer has its pointer
    /// and the next one in order, within the decorators (the operation at the last pointer,
    /// which closes the pointers, has no decorators).
    pub open spec fn node_readable(self, node: MastNodeId) -> bool {
        match self.op_range(node) {
            Err(_) => true,
            Ok((s, e)) => self.ops_readable(s as int, e as int),
        }
    }

    /// The operations at pointer indices `[s, e)` can be read.
    pub open spec fn ops_readable(self, s: int, e: int) -> bool {
        forall|i: int|
            s <= i < e && i + 1 < self.op_ptrs.len() ==> #[trigger] self.op_ptrs[i]
                <= self.op_ptrs[i + 1] <= self.decorators.len()
    }

    /// All `(operation, decorator)` pairs of the pointer indices `[s, e)`, operation indices
    /// counted from `s`, in operation order and, within an operation, in storage order.
    pub open spec fn links_between(self, s: int, e: int) -> Seq<(usize, DecoratorId)>
        decreases e - s,
    {
        if e <= s {
            Seq::empty()
        } else {
            self.links_between(s, e - 1) + self.slot(e - 1).map_values(
                |d: DecoratorId| ((e - 1 - s) as usize, d),
            )
        }
    }
}

// ---------------------------------------------------------------------------------------------
// Appending one node

/// Past the entries from `k` on whose operation index is `op`.
pub open spec fn advance(info: Seq<(usize, DecoratorId)>, k: nat, op: nat) -> nat
    decreases info.len() - k,
{
    if k < info.len() && info[k as int].0 == op {
        advance(info, k + 1, op)
    } else {
        k
    }
}

/// Where the entries of operation `op` start, when operations `0..op` each take the run of
/// consecutive entries carrying their index.
pub open spec fn cursor(info: Seq<(usize, DecoratorId)>, op: nat) -> nat
    decreases op,
{
    if op == 0 {
        0
    } else {
        advance(info, cursor(info, (op - 1) as nat), (op - 1) as nat)
    }
}

/// Number of operations a non-empty `info` lays out: one past its last operation index.
pub open spec fn num_ops(info: Seq<(usize, DecoratorId)>) -> nat {
    (info.last().0 + 1) as nat
}

/// The node pointers once the previous end pointer is overwritten with `start`
/// (or, for the first node, once `start` is pushed).
pub open spec fn reopened(node_ptrs: Seq<usize>, start: usize) -> Seq<usize> {
    if node_ptrs.len() == 0 {
        seq![start]
    } else {
        node_ptrs.update(node_ptrs.len() - 1, start)
    }
}

/// The pointer index that ends the appended node.
pub open spec fn appended_end(v: CsrView, info: Seq<(usize, DecoratorId)>) -> usize {
    if info.len() == 0 {
        v.op_ptrs.len() as usize
    } else {
        (v.op_ptrs.len() + num_ops(info)) as usize
    }
}

/// Whether the end pointer of the appended node finds room in the node pointers.
pub open spec fn append_fits(v: CsrView, info: Seq<(usize, DecoratorId)>) -> bool {
    reopened(v.node_ptrs, v.op_ptrs.len() as usize).len() < max_node_ptrs()
}

/// The operation pointers laid out for `count` operations of `info`, after `d` decorators.
pub open spec fn fresh_ptrs(d: nat, info: Seq<(usize, DecoratorId)>, count: nat) -> Seq<usize> {
    Seq::new(count, |j: int| (d + cursor(info, j as nat)) as usize)
}

/// The store after appending a node whose op-indexed decorators are `info`: operations
/// `0..=last index` each get the run of entries carrying their index (gaps get none), and a
/// sentinel pointer closes the node. An empty `info` gives a node without operations.
pub open spec fn append_view(v: CsrView, info: Seq<(usize, DecoratorId)>) -> CsrView {
    let l = v.op_ptrs.len();
    let d = v.decorators.len();
    let nodes = reopened(v.node_ptrs, l as usize);
    if info.len() == 0 {
        CsrView { node_ptrs: push_if_room(nodes, l as usize), ..v }
    } else {
        let m = num_ops(info);
        CsrView {
            decorators: v.decorators + info.take(cursor(info, m) as int).map_values(
                |e: (usize, DecoratorId)| e.1,
            ),
            op_ptrs: v.op_ptrs + fresh_ptrs(d, info, m + 1),
            node_ptrs: push_if_room(nodes, appended_end(v, info)),
        }
    }
}

/// The decorator ids that `info` attaches to operation `op`, in order.
pub open spec fn ids_for_op(info: Seq<(usize, DecoratorId)>, op: nat) -> Seq<DecoratorId>
    decreases info.len(),
{
    if info.len() == 0 {
        Seq::empty()
    } else {
        let rest = ids_for_op(info.drop_last(), op);
        if info.last().0 == op {
            rest.push(info.last().1)
        } else {
            rest
        }
    }
}

/// The entries are ordered by operation index.
pub open spec fn sorted_by_op(info: Seq<(usize, DecoratorId)>) -> bool {
    forall|i: int, j: int| 0 <= i <= j < info.len() ==> #[trigger] info[i].0 <= #[trigger] info[j].0
}

pub proof fn lemma_advance_bounds(info: Seq<(usize, DecoratorId)>, k: nat, op: nat)
    requires
        k <= info.len(),
    ensures
        k <= advance(info, k, op) <= info.len(),
        forall|j: int| k <= j < advance(info, k, op) ==> #[trigger] info[j].0 == op,
        advance(info, k, op) < info.len() ==> info[advance(info, k, op) as int].0 != op,
    decreases info.len() - k,
{
    if k < info.len() && info[k as int].0 == op {
        lemma_advance_bounds(info, k + 1, op);
    }
}

pub proof fn lemma_cursor_monotone(info: Seq<(usize, DecoratorId)>, a: nat, b: nat)
    requires
        a <= b,
    ensures
        cursor(info, a) <= cursor(info, b) <= info.len(),
    decreases b,
{
    if b > 0 {
        if a < b {
            lemma_cursor_monotone(info, a, (b - 1) as nat);
        }
        lemma_cursor_monotone(info, 0, (b - 1) as nat);
        lemma_advance_bounds(info, cursor(info, (b - 1) as nat), (b - 1) as nat);
    }
}

/// For ordered entries, operation `op` starts right after the entries of smaller index.
pub proof fn lemma_cursor_sorted(info: Seq<(usize, DecoratorId)>, op: nat)
    requires
        sorted_by_op(info),
    ensures
        forall|j: int| 0 <= j < cursor(info, op) ==> #[trigger] info[j].0 < op,
        forall|j: int| cursor(info, op) <= j < info.len() ==> #[trigger] info[j].0 >= op,
    decreases op,
{
    lemma_cursor_monotone(info, op, op);
    if op > 0 {
        let p = (op - 1) as nat;
        lemma_cursor_sorted(info, p);
        lemma_cursor_monotone(info, p, p);
        let c = cursor(info, p);
        lemma_advance_bounds(info, c, p);
        let c2 = advance(info, c, p);
        assert forall|j: int| c2 <= j < info.len() implies #[trigger] info[j].0 >= op by {
            assert(info[c2 as int].0 >= p);
            assert(info[c2 as int].0 <= info[j].0);
        }
    }
}

/// The ids of an operation are those of a block of entries that alone carry its index.
pub proof fn lemma_ids_for_op_block(info: Seq<(usize, DecoratorId)>, op: nat, lo: int, hi: int)
    requires
        0 <= lo <= hi <= info.len(),
        forall|j: int| 0 <= j < lo ==> #[trigger] info[j].0 != op,
        forall|j: int| lo <= j < hi ==> #[trigger] info[j].0 == op,
        forall|j: int| hi <= j < info.len() ==> #[trigger] info[j].0 != op,
    ensures
        ids_for_op(info, op) == info.subrange(lo, hi).map_values(|e: (usize, DecoratorId)| e.1),
    decreases info.len(),
{
    if info.len() == 0 {
        assert(info.subrange(lo, hi).map_values(|e: (usize, DecoratorId)| e.1) =~= Seq::empty());
    } else {
        let rest = info.drop_last();
        let last = info.len() - 1;
        assert(info.last() == info[last]);
        if hi == info.len() && lo < hi {
            lemma_ids_for_op_block(rest, op, lo, hi - 1);
            assert(info.subrange(lo, hi).map_values(|e: (usize, DecoratorId)| e.1) =~= rest.subrange(
                lo,
                hi - 1,
            ).map_values(|e: (usize, DecoratorId)| e.1).push(info.last().1));
        } else if hi == info.len() {
            lemma_ids_for_op_block(rest, op, lo - 1, hi - 1);
            assert(info.subrange(lo, hi).map_values(|e: (usize, DecoratorId)| e.1) =~= Seq::empty());
            assert(rest.subrange(lo - 1, hi - 1).map_values(|e: (usize, DecoratorId)| e.1)
                =~= Seq::empty());
        } else {
            lemma_ids_for_op_block(rest, op, lo, hi);
            assert(info.subrange(lo, hi) =~= rest.subrange(lo, hi));
        }
    }
}

/// For ordered entries, the run that `cursor` gives an operation holds exactly its ids.
pub proof fn lemma_cursor_run_is_ids(info: Seq<(usize, DecoratorId)>, op: nat)
    requires
        sorted_by_op(info),
    ensures
        info.subrange(cursor(info, op) as int, cursor(info, op + 1) as int).map_values(
            |e: (usize, DecoratorId)| e.1,
        ) == ids_for_op(info, op),
{
    lemma_cursor_sorted(info, op);
    lemma_cursor_sorted(info, op + 1);
    lemma_cursor_monotone(info, op, op + 1);
    let lo = cursor(info, op) as int;
    let hi = cursor(info, op + 1) as int;
    assert forall|j: int| lo <= j < hi implies #[trigger] info[j].0 == op by {
        assert(info[j].0 >= op);
        assert(info[j].0 < op + 1);
    }
    lemma_ids_for_op_block(info, op, lo, hi);
}

/// Reopening the last node keeps the node pointers ordered and within `l`.
proof fn lemma_reopened_ordered(node_ptrs: Seq<usize>, l: usize)
    requires
        monotone(node_ptrs),
        bounded_by(node_ptrs, l as nat),
    ensures
        monotone(reopened(node_ptrs, l)),
        bounded_by(reopened(node_ptrs, l), l as nat),
        reopened(node_ptrs, l).len() == if node_ptrs.len() == 0 {
            1
        } else {
            node_ptrs.len()
        },
{
    let nodes = reopened(node_ptrs, l);
    if node_ptrs.len() > 0 {
        let last = node_ptrs.len() - 1;
        assert forall|i: int, j: int| 0 <= i <= j < nodes.len() implies #[trigger] nodes[i]
            <= #[trigger] nodes[j] by {
            if j == last {
                if i < last {
                    assert(node_ptrs[i] <= l);
                }
            } else {
                assert(node_ptrs[i] <= node_ptrs[j]);
            }
        }
        assert forall|i: int| 0 <= i < nodes.len() implies #[trigger] nodes[i] <= l by {
            if i < last {
                assert(node_ptrs[i] <= l);
            }
        }
    }
}

/// Pushing a pointer no smaller than the others keeps the node pointers ordered and bounded.
proof fn lemma_push_ordered(nodes: Seq<usize>, x: usize, l: nat, bound: nat)
    requires
        monotone(nodes),
        bounded_by(nodes, l),
        l <= x <= bound,
        l <= bound,
    ensures
        monotone(push_if_room(nodes, x)),
        bounded_by(push_if_room(nodes, x), bound),
{
    let w = push_if_room(nodes, x);
    assert forall|i: int, j: int| 0 <= i <= j < w.len() implies #[trigger] w[i] <= #[trigger] w[j] by {
        if j == nodes.len() {
            if i < j {
                assert(nodes[i] <= l);
            }
        } else {
            assert(nodes[i] <= nodes[j]);
        }
    }
    assert forall|i: int| 0 <= i < w.len() implies #[trigger] w[i] <= bound by {
        if i < nodes.len() {
            assert(nodes[i] <= l);
        }
    }
}

/// Appending keeps the structural invariant.
pub proof fn lemma_append_wf(v: CsrView, info: Seq<(usize, DecoratorId)>)
    requires
        v.wf(),
        append_view(v, info).decorators.len() <= usize::MAX,
        append_view(v, info).op_ptrs.len() <= usize::MAX,
    ensures
        append_view(v, info).wf(),
{
    let w = append_view(v, info);
    let l = v.op_ptrs.len();
    let d = v.decorators.len();
    lemma_reopened_ordered(v.node_ptrs, l as usize);
    let nodes = reopened(v.node_ptrs, l as usize);
    if info.len() > 0 {
        let m = num_ops(info);
        lemma_cursor_monotone(info, m, m);
        assert forall|i: int, j: int| 0 <= i <= j < w.op_ptrs.len() implies #[trigger] w.op_ptrs[i]
            <= #[trigger] w.op_ptrs[j] by {
            if j >= l {
                lemma_cursor_monotone(info, (j - l) as nat, m);
                if i >= l {
                    lemma_cursor_monotone(info, (i - l) as nat, (j - l) as nat);
                } else {
                    assert(v.op_ptrs[i] <= d);
                }
            } else {
                assert(v.op_ptrs[i] <= v.op_ptrs[j]);
            }
        }
        assert forall|i: int| 0 <= i < w.op_ptrs.len() implies #[trigger] w.op_ptrs[i]
            <= w.decorators.len() by {
            if i >= l {
                lemma_cursor_monotone(info, (i - l) as nat, m);
            } else {
                assert(v.op_ptrs[i] <= d);
            }
        }
        lemma_push_ordered(nodes, appended_end(v, info), l, w.op_ptrs.len());
    } else {
        lemma_push_ordered(nodes, l as usize, l, l);
    }
}

/// An operation index that no entry carries gets no decorator ids.
pub proof fn lemma_ids_for_absent_op(info: Seq<(usize, DecoratorId)>, op: nat)
    requires
        forall|j: int| 0 <= j < info.len() ==> #[trigger] info[j].0 != op,
    ensures
        ids_for_op(info, op) == Seq::<DecoratorId>::empty(),
{
    lemma_ids_for_op_block(info, op, 0, 0);
    assert(info.subrange(0, 0).map_values(|e: (usize, DecoratorId)| e.1) =~= Seq::empty());
}

/// Reading back a node right after it is appended gives, for every operation, exactly the
/// decorator ids that the appended entries attach to it (none for an operation that no entry
/// names), provided the entries are ordered by operation index and the node's end pointer
/// found room.
pub proof fn lemma_append_then_read(v: CsrView, node: MastNodeId, info: Seq<(usize, DecoratorId)>)
    requires
        v.wf(),
        sorted_by_op(info),
        node.index() == v.num_nodes(),
        append_fits(v, info),
        append_view(v, info).wf(),
    ensures
        append_view(v, info).num_nodes() == v.num_nodes() + 1,
        forall|op: nat|
            #[trigger] append_view(v, info).op_decorators(node, op) == Ok::<
                Seq<DecoratorId>,
                DecoratorStorageError,
            >(ids_for_op(info, op)),
{
    let w = append_view(v, info);
    let l = v.op_ptrs.len();
    let d = v.decorators.len();
    let n = node.index() as int;
    let nodes = reopened(v.node_ptrs, l as usize);
    assert(nodes.len() == n + 1);
    assert(w.node_ptrs[n] == l);
    if info.len() == 0 {
        assert(w.node_ptrs[n + 1] == l);
        assert forall|op: nat| #[trigger] w.op_decorators(node, op) == Ok::<
            Seq<DecoratorId>,
            DecoratorStorageError,
        >(ids_for_op(info, op)) by {
            assert(ids_for_op(info, op) == Seq::<DecoratorId>::empty());
        }
    } else {
        let m = num_ops(info);
        lemma_cursor_monotone(info, m, m);
        lemma_cursor_sorted(info, m);
        assert(cursor(info, m) == info.len()) by {
            if cursor(info, m) < info.len() {
                let j = cursor(info, m) as int;
                assert(info[j].0 >= m);
                assert(info[j].0 <= info[info.len() - 1].0);
            }
        }
        assert(w.node_ptrs[n + 1] == l + m);
        assert forall|op: nat| #[trigger] w.op_decorators(node, op) == Ok::<
            Seq<DecoratorId>,
            DecoratorStorageError,
        >(ids_for_op(info, op)) by {
            if op < m {
                lemma_cursor_monotone(info, op, op + 1);
                lemma_cursor_monotone(info, op + 1, m);
                lemma_cursor_run_is_ids(info, op);
                let i = (l + op) as int;
                assert(w.op_ptrs[i] == d + cursor(info, op));
                assert(w.op_ptrs[i + 1] == d + cursor(info, op + 1));
                assert(w.decorators.subrange(
                    (d + cursor(info, op)) as int,
                    (d + cursor(info, op + 1)) as int,
                ) =~= info.subrange(cursor(info, op) as int, cursor(info, op + 1) as int).map_values(
                    |e: (usize, DecoratorId)| e.1,
                ));
            } else {
                assert forall|j: int| 0 <= j < info.len() implies #[trigger] info[j].0 != op by {
                    assert(info[j].0 <= info[info.len() - 1].0);
                }
                lemma_ids_for_absent_op(info, op);
            }
        }
    }
}

impl CsrView {
    /// The store is laid out as appends leave it: the last operation pointer closes the
    /// decorators, and no operation pointer lies past the last node's range but its closing one.
    pub open spec fn tight(self) -> bool {
        &&& self.op_ptrs.len() > 0 ==> self.op_ptrs.last() == self.decorators.len()
        &&& self.node_ptrs.len() > 0 ==> self.node_ptrs.last() + 1 >= self.op_ptrs.len()
        &&& self.node_ptrs.len() == 0 ==> self.op_ptrs.len() == 0
    }
}

/// An append whose end pointer finds room keeps the store laid out as appends leave it.
pub proof fn lemma_append_tight(v: CsrView, info: Seq<(usize, DecoratorId)>)
    requires
        v.wf(),
        v.tight(),
        append_fits(v, info),
        append_view(v, info).wf(),
    ensures
        append_view(v, info).tight(),
{
    let w = append_view(v, info);
    let l = v.op_ptrs.len();
    let nodes = reopened(v.node_ptrs, l as usize);
    assert(nodes.len() < max_node_ptrs());
    if info.len() == 0 {
        assert(w.node_ptrs == nodes.push(l as usize));
    } else {
        let m = num_ops(info);
        lemma_cursor_monotone(info, m, m);
        assert(w.node_ptrs == nodes.push(appended_end(v, info)));
        assert(w.op_ptrs.len() == l + m + 1);
        assert(w.op_ptrs.last() == fresh_ptrs(v.decorators.len(), info, m + 1)[m as int]);
        assert(w.decorators.len() == v.decorators.len() + cursor(info, m));
    }
}

/// Appending a node never changes what an earlier node reads, for any operation, on a store
/// laid out as appends leave it: the earlier node's operations keep their pointers, and the
/// one operation that the append may add to the last node's range sits on that node's closing
/// pointer and has no decorators.
pub proof fn lemma_append_keeps_earlier(
    v: CsrView,
    info: Seq<(usize, DecoratorId)>,
    node: MastNodeId,
    op: nat,
)
    requires
        v.wf(),
        v.tight(),
        append_fits(v, info),
        append_view(v, info).wf(),
        node.index() < v.num_nodes(),
    ensures
        append_view(v, info).op_decorators(node, op) == v.op_decorators(node, op),
{
    let w = append_view(v, info);
    let l = v.op_ptrs.len();
    let d = v.decorators.len();
    let k = node.index() as int;
    let last = v.node_ptrs.len() - 1;
    let nodes = reopened(v.node_ptrs, l as usize);
    assert(v.node_ptrs.len() > 0);
    assert(nodes == v.node_ptrs.update(last, l as usize));
    assert(w.node_ptrs[k] == v.node_ptrs[k]);
    let s = v.node_ptrs[k];
    let eo = v.node_ptrs[k + 1];
    let en = w.node_ptrs[k + 1];
    assert(eo <= l);
    assert(s <= eo);
    if k + 1 == last {
        assert(en == l);
        assert(eo + 1 >= l);
    } else {
        assert(en == eo);
    }
    assert(w.op_ptrs.len() >= l);
    assert(forall|i: int| 0 <= i < l ==> #[trigger] w.op_ptrs[i] == v.op_ptrs[i]);
    assert(v.op_range(node) == Ok::<(usize, usize), DecoratorStorageError>((s, eo)));
    assert(w.op_range(node) == Ok::<(usize, usize), DecoratorStorageError>((s, en)));
    let i = s + op;
    if op < en - s {
        if i + 1 < l {
            assert(op < eo - s);
            let ds = v.op_ptrs[i];
            let de = v.op_ptrs[i + 1];
            assert(ds <= de <= d);
            assert(w.op_ptrs[i] == ds);
            assert(w.op_ptrs[i + 1] == de);
            assert(w.decorators.subrange(ds as int, de as int) =~= v.decorators.subrange(
                ds as int,
                de as int,
            ));
        } else {
            assert(i + 1 == l);
            assert(v.op_decorators(node, op) == Ok::<Seq<DecoratorId>, DecoratorStorageError>(
                Seq::empty(),
            ));
            if i + 1 < w.op_ptrs.len() {
                assert(info.len() > 0);
                assert(w.op_ptrs[i] == v.op_ptrs.last());
                assert(w.op_ptrs[i + 1] == fresh_ptrs(d, info, num_ops(info) + 1)[0]);
                assert(w.decorators.subrange(d as int, d as int) =~= Seq::<DecoratorId>::empty());
            }
        }
    }
}

// ---------------------------------------------------------------------------------------------
// Executable core shared by the stores

/// The view of three CSR arrays.
pub open spec fn view_of(
    decorators: Seq<DecoratorId>,
    op_ptrs: Seq<usize>,
    node_ptrs: Seq<usize>,
) -> CsrView {
    CsrView { decorators, op_ptrs, node_ptrs }
}

/// Reads the operation range of `node`.
pub(crate) fn read_op_range(op_ptrs_len: usize, node_ptrs: &Vec<usize>, node: MastNodeId) -> (r:
    Result<(usize, usize), DecoratorStorageError>)
    ensures
        r == ptr_range(node_ptrs@, op_ptrs_len as nat, node),
{
    let node_idx = node.to_usize();
    if node_ptrs.len() == 0 || node_idx >= node_ptrs.len() - 1 {
        return Err(DecoratorStorageError::NodeIndex(node));
    }
    let start = node_ptrs[node_idx];
    let end = node_ptrs[node_idx + 1];
    if start > end || end > op_ptrs_len {
        return Err(DecoratorStorageError::InternalStructure);
    }
    Ok((start, end))
}

/// Reads the decorators of operation `op` of `node`.
pub(crate) fn read_op_decorators<'a>(
    decorators: &'a Vec<DecoratorId>,
    op_ptrs: &Vec<usize>,
    node_ptrs: &Vec<usize>,
    node: MastNodeId,
    op: usize,
) -> (r: Result<&'a [DecoratorId], DecoratorStorageError>)
    ensures
        match (r, view_of(decorators@, op_ptrs@, node_ptrs@).op_decorators(node, op as nat)) {
            (Ok(s), Ok(t)) => s@ == t,
            (Err(e), Err(f)) => e == f,
            _ => false,
        },
{
    let (start, end) = match read_op_range(op_ptrs.len(), node_ptrs, node) {
        Ok(range) => range,
        Err(e) => return Err(e),
    };
    if op >= end - start {
        return Ok(vstd::slice::slice_subrange(decorators.as_slice(), 0, 0));
    }
    let op_start_idx = start + op;
    if op_start_idx + 1 >= op_ptrs.len() {
        return Ok(vstd::slice::slice_subrange(decorators.as_slice(), 0, 0));
    }
    let dec_start = op_ptrs[op_start_idx];
    let dec_end = op_ptrs[op_start_idx + 1];
    if dec_start > dec_end || dec_end > decorators.len() {
        return Err(DecoratorStorageError::InternalStructure);
    }
    Ok(vstd::slice::slice_subrange(decorators.as_slice(), dec_start, dec_end))
}

/// Lists the operations of `node` with their decorators, operation indices counted from 0.
pub(crate) fn read_node_decorators<'a>(
    decorators: &'a Vec<DecoratorId>,
    op_ptrs: &Vec<usize>,
    node_ptrs: &Vec<usize>,
    node: MastNodeId,
) -> (r: Result<Vec<(usize, &'a [DecoratorId])>, DecoratorStorageError>)
    requires
        view_of(decorators@, op_ptrs@, node_ptrs@).node_readable(node),
    ensures
        ({
            let v = view_of(decorators@, op_ptrs@, node_ptrs@);
            match (r, v.op_range(node)) {
                (Ok(list), Ok((s, e))) => list@.len() == e - s && forall|j: int|
                    0 <= j < list@.len() ==> (#[trigger] list@[j]).0 == j && list@[j].1@ == v.slot(
                        s + j,
                    ),
                (Err(x), Err(y)) => x == y,
                _ => false,
            }
        }),
{
    let ghost v = view_of(decorators@, op_ptrs@, node_ptrs@);
    let (start, end) = match read_op_range(op_ptrs.len(), node_ptrs, node) {
        Ok(range) => range,
        Err(e) => return Err(e),
    };
    let num_ops = end - start;
    let mut list: Vec<(usize, &'a [DecoratorId])> = Vec::new();
    let mut op_idx: usize = 0;
    while op_idx < num_ops
        invariant
            v == view_of(decorators@, op_ptrs@, node_ptrs@),
            v.op_range(node) == Ok::<(usize, usize), DecoratorStorageError>((start, end)),
            v.ops_readable(start as int, end as int),
            num_ops == end - start,
            op_idx <= num_ops,
            list@.len() == op_idx,
            forall|j: int|
                0 <= j < op_idx ==> (#[trigger] list@[j]).0 == j && list@[j].1@ == v.slot(
                    start + j,
                ),
        decreases num_ops - op_idx,
    {
        let op_start_idx = start + op_idx;
        assert(start <= op_start_idx < end);
        if op_start_idx + 1 >= op_ptrs.len() {
            let ids = vstd::slice::slice_subrange(decorators.as_slice(), 0, 0);
            list.push((op_idx, ids));
        } else {
            assert(v.ops_readable(start as int, end as int));
            assert(v.op_ptrs[op_start_idx as int] <= v.op_ptrs[op_start_idx as int + 1]);
            assert(v.op_ptrs[op_start_idx as int + 1] <= v.decorators.len());
            let dec_start = op_ptrs[op_start_idx];
            let dec_end = op_ptrs[op_start_idx + 1];
            let ids = vstd::slice::slice_subrange(decorators.as_slice(), dec_start, dec_end);
            list.push((op_idx, ids));
        }
        op_idx = op_idx + 1;
    }
    Ok(list)
}

/// Appends a node whose op-indexed decorators are `info` (ordered by operation index, as
/// callers provide them; entries out of order are skipped as the layout walk passes them).
/// Returns whether the node's end pointer found room in the node pointers.
pub(crate) fn append_node(
    decorators: &mut Vec<DecoratorId>,
    op_ptrs: &mut Vec<usize>,
    node_ptrs: &mut Vec<usize>,
    info: Vec<(usize, DecoratorId)>,
) -> (pushed: bool)
    requires
        old(node_ptrs)@.len() <= max_node_ptrs(),
    ensures
        view_of(final(decorators)@, final(op_ptrs)@, final(node_ptrs)@) == append_view(
            view_of(old(decorators)@, old(op_ptrs)@, old(node_ptrs)@),
            info@,
        ),
        pushed == append_fits(view_of(old(decorators)@, old(op_ptrs)@, old(node_ptrs)@), info@),
{
    let ghost v = view_of(decorators@, op_ptrs@, node_ptrs@);
    let op_start = op_ptrs.len();
    if node_ptrs.len() == 0 {
        let _ = push_node_ptr(node_ptrs, op_start);
    } else {
        let last = node_ptrs.len() - 1;
        node_ptrs.set(last, op_start);
    }
    assert(node_ptrs@ =~= reopened(v.node_ptrs, op_start));
    if info.len() == 0 {
        let pushed = push_node_ptr(node_ptrs, op_start);
        assert(view_of(decorators@, op_ptrs@, node_ptrs@) =~= append_view(v, info@));
        return pushed;
    }
    let max_op_idx = info[info.len() - 1].0;
    let ghost m = num_ops(info@);
    let ghost d = v.decorators.len();
    let mut k: usize = 0;
    let mut op: usize = 0;
    loop
        invariant_except_break
            op <= max_op_idx,
            k == cursor(info@, op as nat),
            decorators@ == v.decorators + info@.take(k as int).map_values(
                |e: (usize, DecoratorId)| e.1,
            ),
            op_ptrs@ == v.op_ptrs + fresh_ptrs(d, info@, op as nat),
        invariant
            m == max_op_idx + 1,
            d == v.decorators.len(),
            op_start == v.op_ptrs.len(),
            node_ptrs@ == reopened(v.node_ptrs, op_start),
            k <= info@.len(),
        ensures
            k == cursor(info@, m),
            decorators@ == v.decorators + info@.take(k as int).map_values(
                |e: (usize, DecoratorId)| e.1,
            ),
            op_ptrs@ == v.op_ptrs + fresh_ptrs(d, info@, m),
        decreases max_op_idx - op,
    {
        proof {
            lemma_cursor_monotone(info@, op as nat, op as nat);
        }
        assert(decorators@.len() == d + k);
        assert(cursor(info@, (op as int) as nat) == k);
        assert((d + k) as usize == decorators.len());

        op_ptrs.push(decorators.len());
        assert(op_ptrs@ =~= v.op_ptrs + fresh_ptrs(d, info@, (op + 1) as nat));
        let ghost k0 = k;
        while k < info.len() && info[k].0 == op
            invariant
                k0 == cursor(info@, op as nat),
                k0 <= k <= info@.len(),
                advance(info@, k as nat, op as nat) == advance(info@, k0 as nat, op as nat),
                decorators@ == v.decorators + info@.take(k as int).map_values(
                    |e: (usize, DecoratorId)| e.1,
                ),
            decreases info.len() - k,
        {
            decorators.push(info[k].1);
            assert(info@.take(k + 1) =~= info@.take(k as int).push(info@[k as int]));
            assert(info@.take(k + 1).map_values(|e: (usize, DecoratorId)| e.1) =~= info@.take(
                k as int,
            ).map_values(|e: (usize, DecoratorId)| e.1).push(info@[k as int].1));
            k = k + 1;
        }
        assert(k == advance(info@, k as nat, op as nat));
        assert(k == cursor(info@, (op + 1) as nat));
        if op == max_op_idx {
            break;
        }
        op = op + 1;
    }
    proof {
        lemma_cursor_monotone(info@, m, m);
    }
    assert((d + cursor(info@, m)) as usize == decorators.len());
    op_ptrs.push(decorators.len());
    assert(op_ptrs@ =~= v.op_ptrs + fresh_ptrs(d, info@, m + 1));
    let end_ops = op_ptrs.len() - 1;
    let pushed = push_node_ptr(node_ptrs, end_ops);
    assert(view_of(decorators@, op_ptrs@, node_ptrs@) =~= append_view(v, info@));
    pushed
}

} // verus!
