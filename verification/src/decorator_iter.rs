//! Iteration over the decorators of a basic block: `before_enter` decorators (at operation 0),
//! op-indexed decorators, then `after_exit` decorators (at the number of operations).
use vstd::prelude::*;

use crate::debuginfo::{DecoratedLinksIter, DecoratedOpLink};
use crate::ids::{DecoratorId, MastNodeId};
use crate::op_padding::{
    OpBatch, PaddedToRawPrefix, RawToPaddedPrefix, batches_wf, count_pads, lemma_count_pads_bound,
    lemma_padded_prefix_le, padded_prefix, padding_marks, raw_prefix,
};

verus! {

/// Op-indexed decorators of a block, ordered by operation index.
pub type DecoratorList = Vec<DecoratedOpLink>;

/// Where the op-indexed decorators of a basic block are kept.
#[derive(Debug, Clone, PartialEq, Eq)]
pub enum DecoratorStore {
    /// The block owns its decorators (it has not been added to a forest yet).
    Owned(DecoratorList),
    /// The decorators are kept by the forest under this node id.
    Linked { id: MastNodeId },
}

impl Default for DecoratorStore {
    fn default() -> (s: Self)
        ensures
            s matches DecoratorStore::Owned(list) && list@.len() == 0,
    {
        DecoratorStore::Owned(Vec::new())
    }
}

/// Either an operation of a block or a decorator id.
#[derive(Debug, Clone, PartialEq, Eq)]
pub enum OperationOrDecorator<'a, Op> {
    Operation(&'a Op),
    Decorator(DecoratorId),
}

/// The list is ordered by operation index and its last index is at most the number of
/// operations.
pub open spec fn decorators_valid(operations_len: nat, decorators: Seq<DecoratedOpLink>) -> bool {
    decorators.len() > 0 ==> {
        &&& forall|i: int|
            0 <= i < decorators.len() - 1 ==> #[trigger] decorators[i].0 <= decorators[i + 1].0
        &&& decorators.last().0 <= operations_len
    }
}

/// Validates a decorator list: it must be ordered by operation index, with its last index at
/// most the number of operations. Debug builds of the block constructors assert this; here the
/// callers prove it, so nothing is left to check when the function runs.
pub fn validate_decorators(operations_len: usize, decorators: &DecoratorList)
    requires
        decorators_valid(operations_len as nat, decorators@),
{
}

/// The op-indexed part of a decorator iterator: a slice, or the links of a forest node with
/// one item of look-ahead.
pub enum Mid<'a> {
    Slice { items: &'a [DecoratedOpLink], pos: usize },
    Linked { iter: DecoratedLinksIter<'a>, peeked: Option<DecoratedOpLink> },
}

impl<'a> Mid<'a> {
    /// The items still to come.
    pub open spec fn pending(&self) -> Seq<DecoratedOpLink> {
        match self {
            Mid::Slice { items, pos } => items@.skip(*pos as int),
            Mid::Linked { iter, peeked } => match peeked {
                Some(x) => seq![*x] + iter.pending(),
                None => iter.pending(),
            },
        }
    }

    /// The count announced as the number of items still to come.
    pub open spec fn announced(&self) -> int {
        match self {
            Mid::Slice { items, pos } => items@.len() - *pos,
            Mid::Linked { iter, peeked } => iter.remaining_count() + if peeked is Some {
                1int
            } else {
                0int
            },
        }
    }

    pub open spec fn inv(&self) -> bool {
        match self {
            Mid::Slice { items, pos } => *pos <= items@.len(),
            Mid::Linked { iter, peeked } => iter.inv(),
        }
    }

    /// The announced count is the number of items still to come.
    pub proof fn lemma_announced_counts_pending(&self)
        requires
            self.inv(),
        ensures
            self.announced() == self.pending().len(),
    {
        match self {
            Mid::Slice { items, pos } => {},
            Mid::Linked { iter, peeked } => {
                iter.lemma_remaining_is_pending();
            },
        }
    }

    fn next_item(&mut self) -> (r: Option<DecoratedOpLink>)
        requires
            old(self).inv(),
        ensures
            final(self).inv(),
            old(self).pending().len() == 0 ==> r is None && final(self).pending() == old(
                self).pending(),
            old(self).pending().len() > 0 ==> r == Some(old(self).pending()[0]) && final(
                self).pending() == old(self).pending().drop_first(),
    {
        match self {
            Mid::Slice { items, pos } => {
                if *pos < items.len() {
                    let x = items[*pos];
                    *pos = *pos + 1;
                    assert(items@.skip(*pos as int) =~= items@.skip(*pos - 1).drop_first());
                    Some(x)
                } else {
                    None
                }
            },
            Mid::Linked { iter, peeked } => {
                match peeked.take() {
                    Some(x) => {
                        assert((seq![x] + iter.pending()).drop_first() =~= iter.pending());
                        Some(x)
                    },
                    None => iter.next(),
                }
            },
        }
    }

    fn peek_item(&mut self) -> (r: Option<DecoratedOpLink>)
        requires
            old(self).inv(),
        ensures
            final(self).inv(),
            final(self).pending() == old(self).pending(),
            old(self).pending().len() == 0 ==> r is None,
            old(self).pending().len() > 0 ==> r == Some(old(self).pending()[0]),
    {
        match self {
            Mid::Slice { items, pos } => {
                if *pos < items.len() {
                    Some(items[*pos])
                } else {
                    None
                }
            },
            Mid::Linked { iter, peeked } => {
                if peeked.is_none() {
                    let ghost p0 = iter.pending();
                    *peeked = iter.next();
                    proof {
                        if p0.len() > 0 {
                            assert(seq![p0[0]] + p0.drop_first() =~= p0);
                        }
                    }
                }
                *peeked
            },
        }
    }
}

/// The segment that a decorator iterator is in.
pub enum Segment {
    Before,
    Middle,
    After,
    Done,
}

pub open spec fn seg_rank(seg: Segment) -> nat {
    match seg {
        Segment::Before => 3,
        Segment::Middle => 2,
        Segment::After => 1,
        Segment::Done => 0,
    }
}

/// Iterates the decorators of a block with operation indices of the padded layout: each
/// `before_enter` decorator at 0, the op-indexed decorators at their own index, each
/// `after_exit` decorator at the total number of operations.
pub struct DecoratorOpLinkIterator<'a> {
    before: &'a [DecoratorId],
    before_pos: usize,
    middle: Mid<'a>,
    after: &'a [DecoratorId],
    after_pos: usize,
    total_ops: usize,
    seg: Segment,
}

/// `ids` pegged at operation index `at`.
pub open spec fn pegged(ids: Seq<DecoratorId>, at: usize) -> Seq<DecoratedOpLink> {
    ids.map_values(|d: DecoratorId| (at, d))
}

impl<'a> DecoratorOpLinkIterator<'a> {
    /// The decorators still to come, in order.
    pub closed spec fn pending(&self) -> Seq<DecoratedOpLink> {
        let b = pegged(self.before@.skip(self.before_pos as int), 0);
        let m = self.middle.pending();
        let a = pegged(self.after@.skip(self.after_pos as int), self.total_ops);
        match self.seg {
            Segment::Before => b + m + a,
            Segment::Middle => m + a,
            Segment::After => a,
            Segment::Done => Seq::empty(),
        }
    }

    /// The count announced as the iterator's length.
    pub closed spec fn announced_len(&self) -> int {
        (self.before@.len() - self.before_pos) + self.middle.announced() + (self.after@.len()
            - self.after_pos)
    }

    pub closed spec fn inv(&self) -> bool {
        &&& self.before_pos <= self.before@.len()
        &&& self.after_pos <= self.after@.len()
        &&& self.middle.inv()
        &&& !(self.seg is Before) ==> self.before_pos == self.before@.len()
        &&& (self.seg is After || self.seg is Done) ==> self.middle.pending().len() == 0
        &&& self.seg is Done ==> self.after_pos == self.after@.len()
    }

    /// An iterator over `before_enter`, the op-indexed `decorators` and `after_exit`.
    pub fn from_slice_iters(
        before_enter: &'a [DecoratorId],
        decorators: &'a [DecoratedOpLink],
        after_exit: &'a [DecoratorId],
        total_operations: usize,
    ) -> (it: Self)
        ensures
            it.inv(),
            it.pending() == pegged(before_enter@, 0) + decorators@ + pegged(
                after_exit@,
                total_operations,
            ),
            it.announced_len() == before_enter@.len() + decorators@.len() + after_exit@.len(),
    {
        let it = DecoratorOpLinkIterator {
            before: before_enter,
            before_pos: 0,
            middle: Mid::Slice { items: decorators, pos: 0 },
            after: after_exit,
            after_pos: 0,
            total_ops: total_operations,
            seg: Segment::Before,
        };
        assert(before_enter@.skip(0) =~= before_enter@);
        assert(after_exit@.skip(0) =~= after_exit@);
        assert(decorators@.skip(0) =~= decorators@);
        it
    }

    /// An iterator over `before_enter`, the links of a forest node and `after_exit`.
    pub fn from_linked(
        before_enter: &'a [DecoratorId],
        decorators: DecoratedLinksIter<'a>,
        after_exit: &'a [DecoratorId],
        total_operations: usize,
    ) -> (it: Self)
        requires
            decorators.inv(),
        ensures
            it.inv(),
            it.pending() == pegged(before_enter@, 0) + decorators.pending() + pegged(
                after_exit@,
                total_operations,
            ),
            it.announced_len() == before_enter@.len() + decorators.remaining_count()
                + after_exit@.len(),
    {
        let it = DecoratorOpLinkIterator {
            before: before_enter,
            before_pos: 0,
            middle: Mid::Linked { iter: decorators, peeked: None },
            after: after_exit,
            after_pos: 0,
            total_ops: total_operations,
            seg: Segment::Before,
        };
        assert(before_enter@.skip(0) =~= before_enter@);
        assert(after_exit@.skip(0) =~= after_exit@);
        it
    }

    /// The next decorator with its operation index, if any.
    pub fn next(&mut self) -> (r: Option<DecoratedOpLink>)
        requires
            old(self).inv(),
        ensures
            final(self).inv(),
            old(self).pending().len() == 0 ==> r is None && final(self).pending() == old(
                self).pending(),
            old(self).pending().len() > 0 ==> r == Some(old(self).pending()[0]) && final(
                self).pending() == old(self).pending().drop_first(),
    {
        let ghost p0 = self.pending();
        loop
            invariant
                self.inv(),
                self.pending() == p0,
                p0 == old(self).pending(),
            decreases seg_rank(self.seg),
        {
            match self.seg {
                Segment::Before => {
                    if self.before_pos < self.before.len() {
                        let id = self.before[self.before_pos];
                        let ghost b = self.before@.skip(self.before_pos as int);
                        self.before_pos = self.before_pos + 1;
                        proof {
                            assert(self.before@.skip(self.before_pos as int) =~= b.drop_first());
                            assert(pegged(b, 0)[0] == (0usize, id));
                            assert(pegged(b.drop_first(), 0) =~= pegged(b, 0).drop_first());
                            assert(self.pending() =~= p0.drop_first());
                        }
                        return Some((0, id));
                    }
                    assert(self.before@.skip(self.before_pos as int) =~= Seq::empty());
                    self.seg = Segment::Middle;
                    assert(self.pending() =~= p0);
                },
                Segment::Middle => {
                    let ghost m = self.middle.pending();
                    match self.middle.next_item() {
                        Some(x) => {
                            assert(self.pending() =~= p0.drop_first());
                            return Some(x);
                        },
                        None => {},
                    }
                    self.seg = Segment::After;
                    assert(self.pending() =~= p0);
                },
                Segment::After => {
                    if self.after_pos < self.after.len() {
                        let id = self.after[self.after_pos];
                        let ghost a = self.after@.skip(self.after_pos as int);
                        self.after_pos = self.after_pos + 1;
                        proof {
                            assert(self.after@.skip(self.after_pos as int) =~= a.drop_first());
                            assert(pegged(a.drop_first(), self.total_ops) =~= pegged(
                                a,
                                self.total_ops,
                            ).drop_first());
                            assert(self.pending() =~= p0.drop_first());
                        }
                        return Some((self.total_ops, id));
                    }
                    assert(self.after@.skip(self.after_pos as int) =~= Seq::empty());
                    self.seg = Segment::Done;
                    assert(self.pending() =~= p0);
                },
                Segment::Done => {
                    return None;
                },
            }
        }
    }

    /// The next decorator only if it is attached to operation `pos` (`before_enter` decorators
    /// count as operation 0, `after_exit` ones as the total number of operations); otherwise
    /// nothing is consumed.
    pub fn next_filtered(&mut self, pos: usize) -> (r: Option<DecoratedOpLink>)
        requires
            old(self).inv(),
        ensures
            final(self).inv(),
            (old(self).pending().len() > 0 && old(self).pending()[0].0 == pos) ==> r == Some(
                old(self).pending()[0],
            ) && final(self).pending() == old(self).pending().drop_first(),
            !(old(self).pending().len() > 0 && old(self).pending()[0].0 == pos) ==> r is None
                && final(self).pending() == old(self).pending(),
    {
        let ghost p0 = self.pending();
        let mut should_yield = false;
        loop
            invariant
                self.inv(),
                self.pending() == p0,
                p0 == old(self).pending(),
            ensures
                self.inv(),
                self.pending() == p0,
                should_yield == (p0.len() > 0 && p0[0].0 == pos),
            decreases seg_rank(self.seg),
        {
            match self.seg {
                Segment::Before => {
                    if self.before_pos < self.before.len() {
                        should_yield = pos == 0;
                        break;
                    }
                    assert(self.before@.skip(self.before_pos as int) =~= Seq::empty());
                    self.seg = Segment::Middle;
                    assert(self.pending() =~= p0);
                },
                Segment::Middle => {
                    match self.middle.peek_item() {
                        Some(x) => {
                            should_yield = pos == x.0;
                            break;
                        },
                        None => {},
                    }
                    self.seg = Segment::After;
                    assert(self.pending() =~= p0);
                },
                Segment::After => {
                    if self.after_pos < self.after.len() {
                        should_yield = pos == self.total_ops;
                        break;
                    }
                    assert(self.after@.skip(self.after_pos as int) =~= Seq::empty());
                    self.seg = Segment::Done;
                    assert(self.pending() =~= p0);
                },
                Segment::Done => {
                    should_yield = false;
                    break;
                },
            }
        }
        if should_yield {
            self.next()
        } else {
            None
        }
    }

    /// The announced length is exactly the number of decorators still to come, in every state
    /// the iterator can reach: it drops by one with each decorator `next` yields and is 0 once
    /// `next` gives nothing.
    pub proof fn lemma_len_counts_pending(&self)
        requires
            self.inv(),
        ensures
            self.announced_len() == self.pending().len(),
    {
        self.middle.lemma_announced_counts_pending();
    }

    /// The announced number of decorators left.
    pub fn len(&self) -> (r: usize)
        requires
            self.inv(),
            self.announced_len() <= usize::MAX,
        ensures
            r == self.announced_len(),
            r == self.pending().len(),
    {
        proof {
            self.lemma_len_counts_pending();
        }
        let middle_len = match &self.middle {
            Mid::Slice { items, pos } => items.len() - *pos,
            Mid::Linked { iter, peeked } => {
                let peek_len: usize = if peeked.is_some() {
                    1
                } else {
                    0
                };
                peek_len + iter.len()
            },
        };
        (self.before.len() - self.before_pos) + middle_len + (self.after.len() - self.after_pos)
    }
}

/// The padded-indexed prefix of a block laid out as `marks`, sentinel included.
pub open spec fn pad_to_raw(marks: Seq<bool>) -> Seq<usize> {
    padded_prefix(marks).push(count_pads(marks) as usize)
}

/// The raw index of padded index `p`: `p` minus the paddings before it.
pub open spec fn raw_index(prefix: Seq<usize>, p: usize) -> usize {
    (p - prefix[p as int]) as usize
}

/// Op-indexed links with their padded index turned into a raw index.
pub open spec fn to_raw(prefix: Seq<usize>, links: Seq<DecoratedOpLink>) -> Seq<DecoratedOpLink> {
    links.map_values(|x: DecoratedOpLink| (raw_index(prefix, x.0), x.1))
}

/// Every padded index of `links` has an entry in `prefix`, no larger than itself.
pub open spec fn positions_within(prefix: Seq<usize>, links: Seq<DecoratedOpLink>) -> bool {
    forall|i: int|
        0 <= i < links.len() ==> (#[trigger] links[i]).0 < prefix.len() && prefix[links[i].0 as int]
            <= links[i].0
}

/// Iterates the decorators of a block with operation indices of the raw (un-padded) layout:
/// each `before_enter` decorator at 0, the op-indexed decorators at their raw index, each
/// `after_exit` decorator at the number of raw operations.
pub struct RawDecoratorOpLinkIterator<'a> {
    before: &'a [DecoratorId],
    before_pos: usize,
    middle: Mid<'a>,
    after: &'a [DecoratorId],
    after_pos: usize,
    pad2raw: PaddedToRawPrefix,
    total_raw_ops: usize,
    seg: Segment,
}

impl<'a> RawDecoratorOpLinkIterator<'a> {
    /// The decorators still to come, in order.
    pub closed spec fn pending(&self) -> Seq<DecoratedOpLink> {
        let b = pegged(self.before@.skip(self.before_pos as int), 0);
        let m = to_raw(self.pad2raw@, self.middle.pending());
        let a = pegged(self.after@.skip(self.after_pos as int), self.total_raw_ops);
        match self.seg {
            Segment::Before => b + m + a,
            Segment::Middle => m + a,
            Segment::After => a,
            Segment::Done => Seq::empty(),
        }
    }

    pub closed spec fn inv(&self) -> bool {
        &&& self.before_pos <= self.before@.len()
        &&& self.after_pos <= self.after@.len()
        &&& self.middle.inv()
        &&& positions_within(self.pad2raw@, self.middle.pending())
    }

    /// An iterator over `before_enter`, the op-indexed `decorators` (indexed into the padded
    /// `op_batches`) and `after_exit`, reporting raw operation indices.
    pub fn from_slice_iters(
        before_enter: &'a [DecoratorId],
        decorators: &'a [DecoratedOpLink],
        after_exit: &'a [DecoratorId],
        op_batches: &'a [OpBatch],
    ) -> (it: Self)
        requires
            batches_wf(op_batches@),
            padding_marks(op_batches@, op_batches@.len() as int).len() < usize::MAX,
            forall|i: int|
                0 <= i < decorators@.len() ==> (#[trigger] decorators@[i]).0 <= padding_marks(
                    op_batches@,
                    op_batches@.len() as int,
                ).len(),
        ensures
            it.inv(),
            ({
                let marks = padding_marks(op_batches@, op_batches@.len() as int);
                it.pending() == pegged(before_enter@, 0) + to_raw(pad_to_raw(marks), decorators@)
                    + pegged(after_exit@, (marks.len() - count_pads(marks)) as usize)
            }),
    {
        let pad2raw = PaddedToRawPrefix::new(op_batches);
        let raw2pad = RawToPaddedPrefix::new(op_batches);
        let ghost marks = padding_marks(op_batches@, op_batches@.len() as int);
        proof {
            lemma_count_pads_bound(marks);
            lemma_padded_prefix_le(marks);
        }
        let total_raw_ops = raw2pad.raw_ops();
        let it = RawDecoratorOpLinkIterator {
            before: before_enter,
            before_pos: 0,
            middle: Mid::Slice { items: decorators, pos: 0 },
            after: after_exit,
            after_pos: 0,
            pad2raw,
            total_raw_ops,
            seg: Segment::Before,
        };
        assert(before_enter@.skip(0) =~= before_enter@);
        assert(after_exit@.skip(0) =~= after_exit@);
        assert(decorators@.skip(0) =~= decorators@);
        assert forall|i: int| 0 <= i < decorators@.len() implies (#[trigger] decorators@[i]).0
            < pad_to_raw(marks).len() && pad_to_raw(marks)[decorators@[i].0 as int]
            <= decorators@[i].0 by {
            let p = decorators@[i].0 as int;
            assert(pad_to_raw(marks)[p] <= p);
        }
        it
    }

    /// An iterator over `before_enter`, the links of a forest node (indexed into the padded
    /// `op_batches`) and `after_exit`, reporting raw operation indices.
    pub fn from_linked(
        before_enter: &'a [DecoratorId],
        decorators: DecoratedLinksIter<'a>,
        after_exit: &'a [DecoratorId],
        op_batches: &'a [OpBatch],
    ) -> (it: Self)
        requires
            decorators.inv(),
            batches_wf(op_batches@),
            padding_marks(op_batches@, op_batches@.len() as int).len() < usize::MAX,
            forall|i: int|
                0 <= i < decorators.pending().len() ==> (#[trigger] decorators.pending()[i]).0
                    <= padding_marks(op_batches@, op_batches@.len() as int).len(),
        ensures
            it.inv(),
            ({
                let marks = padding_marks(op_batches@, op_batches@.len() as int);
                it.pending() == pegged(before_enter@, 0) + to_raw(
                    pad_to_raw(marks),
                    decorators.pending(),
                ) + pegged(after_exit@, (marks.len() - count_pads(marks)) as usize)
            }),
    {
        let pad2raw = PaddedToRawPrefix::new(op_batches);
        let raw2pad = RawToPaddedPrefix::new(op_batches);
        let ghost marks = padding_marks(op_batches@, op_batches@.len() as int);
        proof {
            lemma_count_pads_bound(marks);
            lemma_padded_prefix_le(marks);
        }
        let total_raw_ops = raw2pad.raw_ops();
        let ghost links = decorators.pending();
        let it = RawDecoratorOpLinkIterator {
            before: before_enter,
            before_pos: 0,
            middle: Mid::Linked { iter: decorators, peeked: None },
            after: after_exit,
            after_pos: 0,
            pad2raw,
            total_raw_ops,
            seg: Segment::Before,
        };
        assert(before_enter@.skip(0) =~= before_enter@);
        assert(after_exit@.skip(0) =~= after_exit@);
        assert forall|i: int| 0 <= i < links.len() implies (#[trigger] links[i]).0 < pad_to_raw(
            marks,
        ).len() && pad_to_raw(marks)[links[i].0 as int] <= links[i].0 by {
            let p = links[i].0 as int;
            assert(pad_to_raw(marks)[p] <= p);
        }
        it
    }

    /// The next decorator with its raw operation index, if any.
    pub fn next(&mut self) -> (r: Option<DecoratedOpLink>)
        requires
            old(self).inv(),
        ensures
            final(self).inv(),
            old(self).pending().len() == 0 ==> r is None && final(self).pending() == old(
                self).pending(),
            old(self).pending().len() > 0 ==> r == Some(old(self).pending()[0]) && final(
                self).pending() == old(self).pending().drop_first(),
    {
        let ghost p0 = self.pending();
        loop
            invariant
                self.inv(),
                self.pending() == p0,
                p0 == old(self).pending(),
            decreases seg_rank(self.seg),
        {
            match self.seg {
                Segment::Before => {
                    if self.before_pos < self.before.len() {
                        let id = self.before[self.before_pos];
                        let ghost b = self.before@.skip(self.before_pos as int);
                        self.before_pos = self.before_pos + 1;
                        proof {
                            assert(self.before@.skip(self.before_pos as int) =~= b.drop_first());
                            assert(pegged(b, 0)[0] == (0usize, id));
                            assert(pegged(b.drop_first(), 0) =~= pegged(b, 0).drop_first());
                            assert(self.pending() =~= p0.drop_first());
                        }
                        return Some((0, id));
                    }
                    assert(self.before@.skip(self.before_pos as int) =~= Seq::empty());
                    self.seg = Segment::Middle;
                    assert(self.pending() =~= p0);
                },
                Segment::Middle => {
                    let ghost m = self.middle.pending();
                    match self.middle.next_item() {
                        Some(x) => {
                            let (padded_idx, id) = x;
                            assert(m[0] == x);
                            assert(padded_idx < self.pad2raw@.len());
                            let pads = self.pad2raw.index(padded_idx);
                            let raw_idx = padded_idx - pads;
                            proof {
                                assert(to_raw(self.pad2raw@, m.drop_first()) =~= to_raw(
                                    self.pad2raw@,
                                    m,
                                ).drop_first());
                                assert forall|i: int|
                                    0 <= i < self.middle.pending().len() implies (
                                    #[trigger] self.middle.pending()[i]).0 < self.pad2raw@.len()
                                    && self.pad2raw@[self.middle.pending()[i].0 as int]
                                    <= self.middle.pending()[i].0 by {
                                    assert(self.middle.pending()[i] == m[i + 1]);
                                }
                                assert(self.pending() =~= p0.drop_first());
                            }
                            return Some((raw_idx, id));
                        },
                        None => {},
                    }
                    self.seg = Segment::After;
                    assert(self.pending() =~= p0);
                },
                Segment::After => {
                    if self.after_pos < self.after.len() {
                        let id = self.after[self.after_pos];
                        let ghost a = self.after@.skip(self.after_pos as int);
                        self.after_pos = self.after_pos + 1;
                        proof {
                            assert(self.after@.skip(self.after_pos as int) =~= a.drop_first());
                            assert(pegged(a.drop_first(), self.total_raw_ops) =~= pegged(
                                a,
                                self.total_raw_ops,
                            ).drop_first());
                            assert(self.pending() =~= p0.drop_first());
                        }
                        return Some((self.total_raw_ops, id));
                    }
                    assert(self.after@.skip(self.after_pos as int) =~= Seq::empty());
                    self.seg = Segment::Done;
                    assert(self.pending() =~= p0);
                },
                Segment::Done => {
                    return None;
                },
            }
        }
    }
}

/// An item of a block's execution order, as a value: an operation or a decorator id.
pub enum OpOrDecoratorView<Op> {
    Operation(Op),
    Decorator(DecoratorId),
}

/// The value an item stands for.
pub open spec fn item_view<'a, Op>(x: OperationOrDecorator<'a, Op>) -> OpOrDecoratorView<Op> {
    match x {
        OperationOrDecorator::Operation(op) => OpOrDecoratorView::Operation(*op),
        OperationOrDecorator::Decorator(id) => OpOrDecoratorView::Decorator(id),
    }
}

/// The decorator ids `ids` as items.
pub open spec fn decorator_items<Op>(ids: Seq<DecoratorId>) -> Seq<OpOrDecoratorView<Op>> {
    ids.map_values(|d: DecoratorId| OpOrDecoratorView::Decorator(d))
}

/// The operations of `batches` from position `k` of batch `b` on, batch after batch.
pub open spec fn rest_ops<Op>(batches: Seq<Seq<Op>>, b: int, k: int) -> Seq<Op>
    decreases batches.len() - b,
{
    if b < 0 || b >= batches.len() {
        Seq::empty()
    } else {
        batches[b].skip(k) + rest_ops(batches, b + 1, 0)
    }
}

/// The execution order of operations `ops`, the first of which has index `op`, with the
/// op-indexed decorators `links` (ordered by index): before each operation come the decorators
/// at its index, and the decorators at the index after the last operation close the list.
pub open spec fn interleaved<Op>(ops: Seq<Op>, links: Seq<DecoratedOpLink>, op: int) -> Seq<
    OpOrDecoratorView<Op>,
>
    decreases ops.len(), links.len(),
{
    if links.len() > 0 && links[0].0 == op {
        seq![OpOrDecoratorView::Decorator(links[0].1)] + interleaved(ops, links.drop_first(), op)
    } else if ops.len() > 0 {
        seq![OpOrDecoratorView::Operation(ops[0])] + interleaved(ops.drop_first(), links, op + 1)
    } else {
        Seq::empty()
    }
}

/// The operations of each batch.
pub open spec fn batch_views<Op>(batches: Seq<Vec<Op>>) -> Seq<Seq<Op>> {
    Seq::new(batches.len(), |b: int| batches[b]@)
}

/// Iterates the operations and decorators of a basic block in execution order: the
/// `before_enter` decorators, then each operation preceded by the op-indexed decorators at its
/// index (and the decorators at the index after the last operation), then the `after_exit`
/// decorators.
pub struct OperationOrDecoratorIterator<'a, Op> {
    batches: &'a [Vec<Op>],
    decorators: &'a [DecoratedOpLink],
    before: &'a [DecoratorId],
    after: &'a [DecoratorId],
    before_pos: usize,
    after_pos: usize,
    batch_index: usize,
    op_index_in_batch: usize,
    op_index: usize,
    decorator_list_next_index: usize,
    seg: Segment,
}

impl<'a, Op> OperationOrDecoratorIterator<'a, Op> {
    /// The items still to come, in order.
    pub closed spec fn pending(&self) -> Seq<OpOrDecoratorView<Op>> {
        let b = decorator_items(self.before@.skip(self.before_pos as int));
        let m = interleaved(
            rest_ops(batch_views(self.batches@), self.batch_index as int, self.op_index_in_batch as int),
            self.decorators@.skip(self.decorator_list_next_index as int),
            self.op_index as int,
        );
        let a = decorator_items(self.after@.skip(self.after_pos as int));
        match self.seg {
            Segment::Before => b + m + a,
            Segment::Middle => m + a,
            Segment::After => a,
            Segment::Done => Seq::empty(),
        }
    }

    pub closed spec fn inv(&self) -> bool {
        &&& self.before_pos <= self.before@.len()
        &&& self.after_pos <= self.after@.len()
        &&& self.decorator_list_next_index <= self.decorators@.len()
        &&& self.batch_index <= self.batches@.len()
        &&& self.batch_index < self.batches@.len() ==> self.op_index_in_batch
            <= self.batches@[self.batch_index as int]@.len()
        &&& self.op_index + rest_ops(
            batch_views(self.batches@),
            self.batch_index as int,
            self.op_index_in_batch as int,
        ).len() <= usize::MAX
        &&& (self.seg is Before || self.seg is Middle) ==> self.after_pos == 0
    }

    /// An iterator over a block whose operations are `batches` (batch by batch), with the
    /// op-indexed `decorators` (ordered by operation index) and the `before_enter` and
    /// `after_exit` decorators.
    pub fn new(
        batches: &'a [Vec<Op>],
        before_enter: &'a [DecoratorId],
        decorators: &'a [DecoratedOpLink],
        after_exit: &'a [DecoratorId],
    ) -> (it: Self)
        requires
            rest_ops(batch_views(batches@), 0, 0).len() <= usize::MAX,
        ensures
            it.inv(),
            it.pending() == decorator_items::<Op>(before_enter@) + interleaved(
                rest_ops(batch_views(batches@), 0, 0),
                decorators@,
                0,
            ) + decorator_items::<Op>(after_exit@),
    {
        let it = OperationOrDecoratorIterator {
            batches,
            decorators,
            before: before_enter,
            after: after_exit,
            before_pos: 0,
            after_pos: 0,
            batch_index: 0,
            op_index_in_batch: 0,
            op_index: 0,
            decorator_list_next_index: 0,
            seg: Segment::Before,
        };
        assert(before_enter@.skip(0) =~= before_enter@);
        assert(after_exit@.skip(0) =~= after_exit@);
        assert(decorators@.skip(0) =~= decorators@);
        it
    }

    /// The next operation or decorator, if any: the first pending item, which is dropped.
    pub fn next(&mut self) -> (r: Option<OperationOrDecorator<'a, Op>>)
        requires
            old(self).inv(),
        ensures
            final(self).inv(),
            old(self).pending().len() == 0 ==> r is None && final(self).pending() == old(
                self).pending(),
            old(self).pending().len() > 0 ==> r is Some && item_view(r->0) == old(self).pending()[0]
                && final(self).pending() == old(self).pending().drop_first(),
    {
        let ghost bv = batch_views(self.batches@);
        let ghost a_items = decorator_items::<Op>(self.after@);
        if let Segment::Before = self.seg {
            if self.before_pos < self.before.len() {
                let id = self.before[self.before_pos];
                proof {
                    let rest = self.before@.skip(self.before_pos as int);
                    assert(rest[0] == id);
                    assert(rest.drop_first() =~= self.before@.skip(self.before_pos + 1));
                    assert(decorator_items::<Op>(rest) =~= seq![OpOrDecoratorView::<Op>::Decorator(id)] + decorator_items::<Op>(rest.drop_first()));
                }
                self.before_pos = self.before_pos + 1;
                return Some(OperationOrDecorator::Decorator(id));
            }
            proof {
                assert(decorator_items::<Op>(self.before@.skip(self.before_pos as int)) =~= Seq::empty());
            }
            self.seg = Segment::Middle;
        }
        if let Segment::Middle = self.seg {
            let ghost rest = rest_ops(bv, self.batch_index as int, self.op_index_in_batch as int);
            let ghost links = self.decorators@.skip(self.decorator_list_next_index as int);
            if self.decorator_list_next_index < self.decorators.len()
                && self.decorators[self.decorator_list_next_index].0 == self.op_index {
                let id = self.decorators[self.decorator_list_next_index].1;
                proof {
                    assert(links[0] == self.decorators@[self.decorator_list_next_index as int]);
                    assert(links.drop_first() =~= self.decorators@.skip(self.decorator_list_next_index + 1));
                }
                self.decorator_list_next_index = self.decorator_list_next_index + 1;
                return Some(OperationOrDecorator::Decorator(id));
            }
            let mut bi = self.batch_index;
            let mut k = self.op_index_in_batch;
            while bi < self.batches.len() && k >= self.batches[bi].len()
                invariant
                    bv == batch_views(self.batches@),
                    bi <= self.batches@.len(),
                    bi < self.batches@.len() ==> k <= self.batches@[bi as int]@.len(),
                    rest == rest_ops(bv, bi as int, k as int),
                decreases self.batches@.len() - bi,
            {
                proof {
                    assert(bv[bi as int] == self.batches@[bi as int]@);
                    assert(bv[bi as int].skip(k as int) =~= Seq::<Op>::empty());
                    assert(rest_ops(bv, bi + 1, 0) =~= rest_ops(bv, bi as int, k as int));
                }
                bi = bi + 1;
                k = 0;
            }
            self.batch_index = bi;
            self.op_index_in_batch = k;
            if self.batch_index < self.batches.len() {
                let batch = &self.batches[self.batch_index];
                let op = &batch[self.op_index_in_batch];
                proof {
                    let b = self.batch_index as int;
                    let k = self.op_index_in_batch as int;
                    assert(bv[b] == self.batches@[b]@);
                    assert(rest == bv[b].skip(k) + rest_ops(bv, b + 1, 0));
                    assert(rest[0] == *op);
                    assert(rest.drop_first() =~= bv[b].skip(k + 1) + rest_ops(bv, b + 1, 0));
                    assert(rest_ops(bv, b, k + 1) == bv[b].skip(k + 1) + rest_ops(bv, b + 1, 0));
                }
                self.op_index_in_batch = self.op_index_in_batch + 1;
                self.op_index = self.op_index + 1;
                return Some(OperationOrDecorator::Operation(op));
            }
            proof {
                assert(rest =~= Seq::<Op>::empty());
                assert(self.after@.skip(0) =~= self.after@);
            }
            self.seg = Segment::After;
        }
        if let Segment::After = self.seg {
            if self.after_pos < self.after.len() {
                let id = self.after[self.after_pos];
                proof {
                    let rest = self.after@.skip(self.after_pos as int);
                    assert(rest[0] == id);
                    assert(rest.drop_first() =~= self.after@.skip(self.after_pos + 1));
                    assert(decorator_items::<Op>(rest) =~= seq![OpOrDecoratorView::<Op>::Decorator(id)] + decorator_items::<Op>(rest.drop_first()));
                }
                self.after_pos = self.after_pos + 1;
                return Some(OperationOrDecorator::Decorator(id));
            }
            proof {
                assert(decorator_items::<Op>(self.after@.skip(self.after_pos as int)) =~= Seq::empty());
            }
            self.seg = Segment::Done;
        }
        None
    }
}

/// The operations among `items`, in order.
pub open spec fn operations_of<Op>(items: Seq<OpOrDecoratorView<Op>>) -> Seq<Op>
    decreases items.len(),
{
    if items.len() == 0 {
        Seq::empty()
    } else {
        match items[0] {
            OpOrDecoratorView::Operation(op) => seq![op] + operations_of(items.drop_first()),
            OpOrDecoratorView::Decorator(_) => operations_of(items.drop_first()),
        }
    }
}

proof fn lemma_operations_of_concat<Op>(a: Seq<OpOrDecoratorView<Op>>, b: Seq<OpOrDecoratorView<Op>>)
    ensures
        operations_of(a + b) == operations_of(a) + operations_of(b),
    decreases a.len(),
{
    if a.len() == 0 {
        assert(a + b =~= b);
    } else {
        assert((a + b).drop_first() =~= a.drop_first() + b);
        lemma_operations_of_concat(a.drop_first(), b);
    }
}

proof fn lemma_operations_of_decorators<Op>(ids: Seq<DecoratorId>)
    ensures
        operations_of(decorator_items::<Op>(ids)) == Seq::<Op>::empty(),
    decreases ids.len(),
{
    if ids.len() > 0 {
        assert(decorator_items::<Op>(ids).drop_first() =~= decorator_items::<Op>(ids.drop_first()));
        lemma_operations_of_decorators::<Op>(ids.drop_first());
    }
}

proof fn lemma_operations_of_interleaved<Op>(ops: Seq<Op>, links: Seq<DecoratedOpLink>, op: int)
    ensures
        operations_of(interleaved(ops, links, op)) == ops,
    decreases ops.len(), links.len(),
{
    if links.len() > 0 && links[0].0 == op {
        let rest = interleaved(ops, links.drop_first(), op);
        assert((seq![OpOrDecoratorView::Decorator(links[0].1)] + rest).drop_first() =~= rest);
        lemma_operations_of_interleaved(ops, links.drop_first(), op);
    } else if ops.len() > 0 {
        let rest = interleaved(ops.drop_first(), links, op + 1);
        assert((seq![OpOrDecoratorView::Operation(ops[0])] + rest).drop_first() =~= rest);
        lemma_operations_of_interleaved(ops.drop_first(), links, op + 1);
        assert(seq![ops[0]] + ops.drop_first() =~= ops);
    }
}

/// Every operation of a block comes out of its operation-or-decorator iterator exactly once,
/// in order: leaving out the decorators, the items of a new iterator are the block's operations.
pub proof fn lemma_iterator_yields_every_operation<Op>(
    batches: Seq<Seq<Op>>,
    before_enter: Seq<DecoratorId>,
    decorators: Seq<DecoratedOpLink>,
    after_exit: Seq<DecoratorId>,
)
    ensures
        operations_of(
            decorator_items::<Op>(before_enter) + interleaved(rest_ops(batches, 0, 0), decorators, 0)
                + decorator_items::<Op>(after_exit),
        ) == rest_ops(batches, 0, 0),
{
    let b = decorator_items::<Op>(before_enter);
    let m = interleaved(rest_ops(batches, 0, 0), decorators, 0);
    let a = decorator_items::<Op>(after_exit);
    lemma_operations_of_concat(b + m, a);
    lemma_operations_of_concat(b, m);
    lemma_operations_of_decorators::<Op>(before_enter);
    lemma_operations_of_decorators::<Op>(after_exit);
    lemma_operations_of_interleaved(rest_ops(batches, 0, 0), decorators, 0);
    assert(Seq::<Op>::empty() + rest_ops(batches, 0, 0) + Seq::<Op>::empty() =~= rest_ops(batches, 0, 0));
}

} // verus!
