//! Translation between raw operation indices of a basic block and indices into its padded
//! operation batches.
//!
//! Batching may insert one padding operation at the end of an operation group. A raw index `r`
//! (counting only the block's own operations) and a padded index `p` (counting padding too)
//! are related by the number of paddings before them: `p = r + raw_to_padded[r]` and
//! `r = p - padded_to_raw[p]`.
use vstd::prelude::*;

verus! {

/// Maximum number of operations per group.
pub const GROUP_SIZE: usize = 9;

/// Maximum number of groups per batch.
pub const BATCH_SIZE: usize = 8;

/// The group layout of an operation batch: where each group's operations start in the batch
/// and whether the group ends with a padding operation.
#[derive(Debug, Clone, PartialEq, Eq)]
pub struct OpBatch {
    /// Operations of group `g` are at `indptr[g]..indptr[g + 1]` of the batch.
    pub indptr: [usize; 9],
    /// Whether group `g` ends with a padding operation.
    pub padding: [bool; 8],
    /// Number of groups in use.
    pub num_groups: usize,
}

impl OpBatch {
    /// The number of groups in use.
    pub fn num_groups(&self) -> (r: usize)
        ensures
            r == self.num_groups,
    {
        self.num_groups
    }

    /// The group pointers.
    pub fn indptr(&self) -> (r: &[usize; 9])
        ensures
            r@ == self.indptr@,
    {
        &self.indptr
    }

    /// The padding flags of the groups.
    pub fn padding(&self) -> (r: &[bool; 8])
        ensures
            r@ == self.padding@,
    {
        &self.padding
    }

    /// The layout is consistent: at most 8 groups, group pointers in order, and a padded group
    /// holds at least its padding operation.
    pub open spec fn wf(&self) -> bool {
        &&& self.num_groups <= BATCH_SIZE
        &&& forall|g: int|
            0 <= g < self.num_groups ==> #[trigger] self.indptr@[g] <= self.indptr@[g + 1]
        &&& forall|g: int|
            0 <= g < self.num_groups && #[trigger] self.padding@[g] ==> self.indptr@[g]
                < self.indptr@[g + 1]
    }

    /// Number of raw (non-padding) operations of group `g`.
    pub open spec fn raw_in_group(&self, g: int) -> int {
        self.indptr@[g + 1] - self.indptr@[g] - if self.padding@[g] {
            1int
        } else {
            0int
        }
    }
}

/// The padding marks of group `g`: one `false` per raw operation, then `true` if padded.
pub open spec fn group_marks(b: OpBatch, g: int) -> Seq<bool> {
    Seq::new(b.raw_in_group(g) as nat, |i: int| false) + if b.padding@[g] {
        seq![true]
    } else {
        Seq::empty()
    }
}

/// The padding marks of the first `n` groups of a batch.
pub open spec fn batch_marks(b: OpBatch, n: int) -> Seq<bool>
    decreases n,
{
    if n <= 0 {
        Seq::empty()
    } else {
        batch_marks(b, n - 1) + group_marks(b, n - 1)
    }
}

/// The padding marks of the padded operations of the first `k` batches, in order: `true` for
/// a padding operation, `false` for one of the block's own operations.
pub open spec fn padding_marks(batches: Seq<OpBatch>, k: int) -> Seq<bool>
    decreases k,
{
    if k <= 0 {
        Seq::empty()
    } else {
        padding_marks(batches, k - 1) + batch_marks(batches[k - 1], batches[k - 1].num_groups as int)
    }
}

/// The number of paddings among `marks`.
pub open spec fn count_pads(marks: Seq<bool>) -> nat
    decreases marks.len(),
{
    if marks.len() == 0 {
        0
    } else {
        count_pads(marks.drop_last()) + if marks.last() {
            1nat
        } else {
            0nat
        }
    }
}

/// For each raw operation among `marks`, the number of paddings before it.
pub open spec fn raw_prefix(marks: Seq<bool>) -> Seq<usize>
    decreases marks.len(),
{
    if marks.len() == 0 {
        Seq::empty()
    } else if marks.last() {
        raw_prefix(marks.drop_last())
    } else {
        raw_prefix(marks.drop_last()).push(count_pads(marks.drop_last()) as usize)
    }
}

/// For each padded position among `marks`, the number of paddings before it.
pub open spec fn padded_prefix(marks: Seq<bool>) -> Seq<usize>
    decreases marks.len(),
{
    if marks.len() == 0 {
        Seq::empty()
    } else {
        padded_prefix(marks.drop_last()).push(count_pads(marks.drop_last()) as usize)
    }
}

/// The batches of a block all have a consistent layout.
pub open spec fn batches_wf(batches: Seq<OpBatch>) -> bool {
    forall|i: int| 0 <= i < batches.len() ==> #[trigger] batches[i].wf()
}

/// Raw-indexed prefix: entry `r` is the number of paddings strictly before raw index `r`, with a
/// sentinel entry at `r == raw_ops`. `padded_idx = r + raw_to_padded[r]`.
#[derive(Debug, Clone)]
pub struct RawToPaddedPrefix(Vec<usize>);

/// Padded-indexed prefix: entry `p` is the number of paddings strictly before padded index `p`,
/// with a sentinel entry at `p == padded_ops`. `raw_idx = p - padded_to_raw[p]`.
#[derive(Debug, Clone)]
pub struct PaddedToRawPrefix(Vec<usize>);

impl View for RawToPaddedPrefix {
    type V = Seq<usize>;

    closed spec fn view(&self) -> Seq<usize> {
        self.0@
    }
}

impl View for PaddedToRawPrefix {
    type V = Seq<usize>;

    closed spec fn view(&self) -> Seq<usize> {
        self.0@
    }
}

pub proof fn lemma_count_pads_bound(marks: Seq<bool>)
    ensures
        count_pads(marks) <= marks.len(),
        raw_prefix(marks).len() + count_pads(marks) == marks.len(),
        padded_prefix(marks).len() == marks.len(),
    decreases marks.len(),
{
    if marks.len() > 0 {
        lemma_count_pads_bound(marks.drop_last());
    }
}

proof fn lemma_marks_push(marks: Seq<bool>, x: bool)
    ensures
        marks.push(x).drop_last() == marks,
        marks.push(x).last() == x,
{
    assert(marks.push(x).drop_last() =~= marks);
}

impl RawToPaddedPrefix {
    /// Builds the raw-indexed prefix of a block's batches.
    pub fn new(op_batches: &[OpBatch]) -> (r: Self)
        requires
            batches_wf(op_batches@),
            padding_marks(op_batches@, op_batches@.len() as int).len() < usize::MAX,
        ensures
            r@ == ({
                let marks = padding_marks(op_batches@, op_batches@.len() as int);
                raw_prefix(marks).push(count_pads(marks) as usize)
            }),
    {
        let ghost all = padding_marks(op_batches@, op_batches@.len() as int);
        let mut v: Vec<usize> = Vec::new();
        let mut pads_so_far: usize = 0;
        let ghost mut marks: Seq<bool> = Seq::empty();
        let mut bi: usize = 0;
        proof {
            lemma_marks_prefix_len(op_batches@, 0, 0);
        }
        while bi < op_batches.len()
            invariant
                batches_wf(op_batches@),
                all == padding_marks(op_batches@, op_batches@.len() as int),
                all.len() < usize::MAX,
                bi <= op_batches@.len(),
                marks == padding_marks(op_batches@, bi as int),
                v@ == raw_prefix(marks),
                pads_so_far == count_pads(marks),
            decreases op_batches.len() - bi,
        {
            let b = &op_batches[bi];
            let n = b.num_groups();
            let indptr = b.indptr();
            let padding = b.padding();
            assert(b.wf());
            let mut g: usize = 0;
            while g < n
                invariant
                    batches_wf(op_batches@),
                    all == padding_marks(op_batches@, op_batches@.len() as int),
                    all.len() < usize::MAX,
                    bi < op_batches@.len(),
                    *b == op_batches@[bi as int],
                    b.wf(),
                    n == b.num_groups,
                    indptr@ == b.indptr@,
                    padding@ == b.padding@,
                    g <= n,
                    marks == padding_marks(op_batches@, bi as int) + batch_marks(*b, g as int),
                    v@ == raw_prefix(marks),
                    pads_so_far == count_pads(marks),
                decreases n - g,
            {
                proof {
                    lemma_marks_prefix_len(op_batches@, bi as int, g + 1);
                    lemma_count_pads_bound(marks);
                }
                assert(indptr[g as int] <= indptr[g + 1]);
                let group_len = indptr[g + 1] - indptr[g];
                let has_pad: usize = if padding[g] {
                    1
                } else {
                    0
                };
                let raw_in_g = group_len - has_pad;
                let ghost before = marks;
                let mut j: usize = 0;
                while j < raw_in_g
                    invariant
                        all.len() < usize::MAX,
                        marks.len() + (raw_in_g - j) + has_pad <= all.len(),
                        j <= raw_in_g,
                        marks == before + Seq::new(j as nat, |i: int| false),
                        v@ == raw_prefix(marks),
                        pads_so_far == count_pads(marks),
                    decreases raw_in_g - j,
                {
                    proof {
                        lemma_marks_push(marks, false);
                    }
                    v.push(pads_so_far);
                    proof {
                        marks = marks.push(false);
                    }
                    assert(marks =~= before + Seq::new((j + 1) as nat, |i: int| false));
                    j = j + 1;
                }
                proof {
                    lemma_count_pads_bound(marks);
                }
                if has_pad == 1 {
                    proof {
                        lemma_marks_push(marks, true);
                        marks = marks.push(true);
                    }
                }
                pads_so_far = pads_so_far + has_pad;
                assert(marks =~= padding_marks(op_batches@, bi as int) + batch_marks(
                    *b,
                    g + 1,
                ));
                g = g + 1;
            }
            assert(marks =~= padding_marks(op_batches@, bi + 1));
            bi = bi + 1;
        }
        proof {
            lemma_count_pads_bound(marks);
        }
        v.push(pads_so_far);
        RawToPaddedPrefix(v)
    }

    /// The number of raw operations (the sentinel excluded).
    pub fn raw_ops(&self) -> (r: usize)
        requires
            self@.len() > 0,
        ensures
            r == self@.len() - 1,
    {
        self.0.len() - 1
    }

    /// The number of paddings before raw index `idx`.
    pub fn index(&self, idx: usize) -> (r: usize)
        requires
            idx < self@.len(),
        ensures
            r == self@[idx as int],
    {
        self.0[idx]
    }
}

impl PaddedToRawPrefix {
    /// Builds the padded-indexed prefix of a block's batches.
    pub fn new(op_batches: &[OpBatch]) -> (r: Self)
        requires
            batches_wf(op_batches@),
            padding_marks(op_batches@, op_batches@.len() as int).len() < usize::MAX,
        ensures
            r@ == ({
                let marks = padding_marks(op_batches@, op_batches@.len() as int);
                padded_prefix(marks).push(count_pads(marks) as usize)
            }),
    {
        let ghost all = padding_marks(op_batches@, op_batches@.len() as int);
        // Exact capacity: the number of padded operations.
        let mut padded_ops: usize = 0;
        let mut ci: usize = 0;
        proof {
            lemma_marks_prefix_len(op_batches@, 0, 0);
        }
        while ci < op_batches.len()
            invariant
                batches_wf(op_batches@),
                all == padding_marks(op_batches@, op_batches@.len() as int),
                all.len() < usize::MAX,
                ci <= op_batches@.len(),
                padded_ops == padding_marks(op_batches@, ci as int).len(),
            decreases op_batches.len() - ci,
        {
            let b = &op_batches[ci];
            let n = b.num_groups();
            let indptr = b.indptr();
            assert(b.wf());
            let mut g: usize = 0;
            while g < n
                invariant
                    batches_wf(op_batches@),
                    all == padding_marks(op_batches@, op_batches@.len() as int),
                    all.len() < usize::MAX,
                    ci < op_batches@.len(),
                    *b == op_batches@[ci as int],
                    b.wf(),
                    n == b.num_groups,
                    indptr@ == b.indptr@,
                    g <= n,
                    padded_ops == padding_marks(op_batches@, ci as int).len() + batch_marks(
                        *b,
                        g as int,
                    ).len(),
                decreases n - g,
            {
                proof {
                    lemma_marks_prefix_len(op_batches@, ci as int, g + 1);
                }
                assert(indptr[g as int] <= indptr[g + 1]);
                padded_ops = padded_ops + (indptr[g + 1] - indptr[g]);
                g = g + 1;
            }
            ci = ci + 1;
        }
        let mut v: Vec<usize> = Vec::with_capacity(padded_ops + 1);
        let mut pads_so_far: usize = 0;
        let ghost mut marks: Seq<bool> = Seq::empty();
        let mut bi: usize = 0;
        while bi < op_batches.len()
            invariant
                batches_wf(op_batches@),
                all == padding_marks(op_batches@, op_batches@.len() as int),
                all.len() < usize::MAX,
                bi <= op_batches@.len(),
                marks == padding_marks(op_batches@, bi as int),
                v@ == padded_prefix(marks),
                pads_so_far == count_pads(marks),
            decreases op_batches.len() - bi,
        {
            let b = &op_batches[bi];
            let n = b.num_groups();
            let indptr = b.indptr();
            let padding = b.padding();
            assert(b.wf());
            let mut g: usize = 0;
            while g < n
                invariant
                    batches_wf(op_batches@),
                    all == padding_marks(op_batches@, op_batches@.len() as int),
                    all.len() < usize::MAX,
                    bi < op_batches@.len(),
                    *b == op_batches@[bi as int],
                    b.wf(),
                    n == b.num_groups,
                    indptr@ == b.indptr@,
                    padding@ == b.padding@,
                    g <= n,
                    marks == padding_marks(op_batches@, bi as int) + batch_marks(*b, g as int),
                    v@ == padded_prefix(marks),
                    pads_so_far == count_pads(marks),
                decreases n - g,
            {
                proof {
                    lemma_marks_prefix_len(op_batches@, bi as int, g + 1);
                    lemma_count_pads_bound(marks);
                }
                assert(indptr[g as int] <= indptr[g + 1]);
                let group_len = indptr[g + 1] - indptr[g];
                let has_pad: usize = if padding[g] {
                    1
                } else {
                    0
                };
                let raw_in_g = group_len - has_pad;
                let ghost before = marks;
                let mut j: usize = 0;
                while j < raw_in_g
                    invariant
                        all.len() < usize::MAX,
                        marks.len() + (raw_in_g - j) + has_pad <= all.len(),
                        j <= raw_in_g,
                        marks == before + Seq::new(j as nat, |i: int| false),
                        v@ == padded_prefix(marks),
                        pads_so_far == count_pads(marks),
                    decreases raw_in_g - j,
                {
                    proof {
                        lemma_marks_push(marks, false);
                    }
                    v.push(pads_so_far);
                    proof {
                        marks = marks.push(false);
                    }
                    assert(marks =~= before + Seq::new((j + 1) as nat, |i: int| false));
                    j = j + 1;
                }
                proof {
                    lemma_count_pads_bound(marks);
                }
                if has_pad == 1 {
                    proof {
                        lemma_marks_push(marks, true);
                    }
                    v.push(pads_so_far);
                    proof {
                        marks = marks.push(true);
                    }
                    pads_so_far = pads_so_far + 1;
                }
                assert(marks =~= padding_marks(op_batches@, bi as int) + batch_marks(
                    *b,
                    g + 1,
                ));
                g = g + 1;
            }
            assert(marks =~= padding_marks(op_batches@, bi + 1));
            bi = bi + 1;
        }
        proof {
            lemma_count_pads_bound(marks);
        }
        v.push(pads_so_far);
        PaddedToRawPrefix(v)
    }

    /// The number of paddings before padded index `idx`.
    pub fn index(&self, idx: usize) -> (r: usize)
        requires
            idx < self@.len(),
        ensures
            r == self@[idx as int],
    {
        self.0[idx]
    }
}

/// The marks of earlier batches and groups are a prefix of all marks.
proof fn lemma_marks_prefix_len(batches: Seq<OpBatch>, k: int, g: int)
    requires
        batches_wf(batches),
        0 <= k <= batches.len(),
        k < batches.len() ==> 0 <= g <= batches[k].num_groups,
        k == batches.len() ==> g == 0,
    ensures
        k < batches.len() ==> padding_marks(batches, k).len() + batch_marks(batches[k], g).len()
            <= padding_marks(batches, batches.len() as int).len(),
        padding_marks(batches, k).len() <= padding_marks(batches, batches.len() as int).len(),
        k < batches.len() && g > 0 ==> batch_marks(batches[k], g).len() == batch_marks(
            batches[k],
            g - 1,
        ).len() + (batches[k].indptr@[g] - batches[k].indptr@[g - 1]),
    decreases batches.len() - k, batches[k].num_groups - g,
{
    if k < batches.len() {
        let b = batches[k];
        assert(b.wf());
        if g > 0 {
            assert(b.indptr@[g - 1] <= b.indptr@[g]);
            assert(b.padding@[g - 1] ==> b.indptr@[g - 1] < b.indptr@[g]);
        }
        if g < b.num_groups {
            lemma_marks_prefix_len(batches, k, g + 1);
            if g + 1 > 0 {
                assert(b.indptr@[g] <= b.indptr@[g + 1]);
                assert(b.padding@[g] ==> b.indptr@[g] < b.indptr@[g + 1]);
            }
        } else {
            lemma_marks_prefix_len(batches, k + 1, 0);
        }
    }
}

// ---------------------------------------------------------------------------------------------
// Laws

proof fn lemma_take_push(marks: Seq<bool>, x: bool, p: int)
    requires
        0 <= p <= marks.len(),
    ensures
        marks.push(x).take(p) == marks.take(p),
{
    assert(marks.push(x).take(p) =~= marks.take(p));
}

/// Each raw index lands, through the raw-indexed prefix, on a padded position that holds one of
/// the block's own operations and has as many paddings before it as the prefix says.
proof fn lemma_raw_prefix_lands(marks: Seq<bool>)
    requires
        marks.len() <= usize::MAX,
    ensures
        forall|r: int|
            #![trigger raw_prefix(marks)[r]]
            0 <= r < raw_prefix(marks).len() ==> {
                let p = r + raw_prefix(marks)[r];
                &&& p < marks.len()
                &&& !marks[p]
                &&& count_pads(marks.take(p)) == raw_prefix(marks)[r]
            },
    decreases marks.len(),
{
    if marks.len() > 0 {
        let prev = marks.drop_last();
        lemma_raw_prefix_lands(prev);
        lemma_count_pads_bound(prev);
        assert(marks =~= prev.push(marks.last()));
        assert forall|r: int| #![trigger raw_prefix(marks)[r]] 0 <= r < raw_prefix(marks).len() implies {
            let p = r + raw_prefix(marks)[r];
            &&& p < marks.len()
            &&& !marks[p]
            &&& count_pads(marks.take(p)) == raw_prefix(marks)[r]
        } by {
            let x = marks.last();
            if r < raw_prefix(prev).len() {
                let p = r + raw_prefix(prev)[r];
                assert(raw_prefix(marks)[r] == raw_prefix(prev)[r]);
                lemma_take_push(prev, x, p);
                assert(marks.take(p) == prev.take(p));
                assert(marks[p] == prev[p]);
            } else {
                assert(!x);
                assert(raw_prefix(marks) == raw_prefix(prev).push(count_pads(prev) as usize));
                assert(raw_prefix(marks)[r] == count_pads(prev));
                assert(prev.take(prev.len() as int) =~= prev);
                lemma_take_push(prev, x, prev.len() as int);
                assert(marks[prev.len() as int] == x);
            }
        }
    }
}

/// The padded-indexed prefix counts the paddings before each position.
pub proof fn lemma_padded_prefix_counts(marks: Seq<bool>)
    requires
        marks.len() <= usize::MAX,
    ensures
        forall|p: int|
            0 <= p < padded_prefix(marks).len() ==> #[trigger] padded_prefix(marks)[p]
                == count_pads(marks.take(p)),
    decreases marks.len(),
{
    if marks.len() > 0 {
        let prev = marks.drop_last();
        lemma_padded_prefix_counts(prev);
        lemma_count_pads_bound(prev);
        assert(marks =~= prev.push(marks.last()));
        assert forall|p: int| 0 <= p < padded_prefix(marks).len() implies #[trigger] padded_prefix(
            marks,
        )[p] == count_pads(marks.take(p)) by {
            assert(padded_prefix(marks) == padded_prefix(prev).push(count_pads(prev) as usize));
            if p < prev.len() {
                lemma_take_push(prev, marks.last(), p);
                assert(padded_prefix(marks)[p] == padded_prefix(prev)[p]);
            } else {
                lemma_take_push(prev, marks.last(), p);
                assert(prev.take(p) =~= prev);
            }
        }
    }
}

/// Converting a raw index to its padded index and back gives the raw index again, for every raw
/// index up to and including the sentinel (the number of raw operations, which maps to the
/// number of padded operations); the padded index of a raw operation is never a padding.
pub proof fn lemma_padding_round_trip(marks: Seq<bool>)
    requires
        marks.len() < usize::MAX,
    ensures
        ({
            let raw2pad = raw_prefix(marks).push(count_pads(marks) as usize);
            let pad2raw = padded_prefix(marks).push(count_pads(marks) as usize);
            &&& raw2pad.len() == marks.len() - count_pads(marks) + 1
            &&& pad2raw.len() == marks.len() + 1
            &&& forall|r: int|
                #![trigger raw2pad[r]]
                0 <= r < raw2pad.len() ==> {
                    let p = r + raw2pad[r];
                    &&& p < pad2raw.len()
                    &&& p - pad2raw[p] == r
                    &&& r < raw2pad.len() - 1 ==> !marks[p]
                }
        }),
{
    lemma_count_pads_bound(marks);
    lemma_raw_prefix_lands(marks);
    lemma_padded_prefix_counts(marks);
    let raw2pad = raw_prefix(marks).push(count_pads(marks) as usize);
    let pad2raw = padded_prefix(marks).push(count_pads(marks) as usize);
    assert forall|r: int| #![trigger raw2pad[r]] 0 <= r < raw2pad.len() implies {
        let p = r + raw2pad[r];
        &&& p < pad2raw.len()
        &&& p - pad2raw[p] == r
        &&& r < raw2pad.len() - 1 ==> !marks[p]
    } by {
        if r < raw_prefix(marks).len() {
            let p = r + raw_prefix(marks)[r];
            assert(pad2raw[p] == padded_prefix(marks)[p]);
        }
    }
}

/// No padded position has more paddings before it than positions.
pub proof fn lemma_padded_prefix_le(marks: Seq<bool>)
    requires
        marks.len() < usize::MAX,
    ensures
        forall|p: int|
            0 <= p <= marks.len() ==> #[trigger] padded_prefix(marks).push(
                count_pads(marks) as usize,
            )[p] <= p,
{
    lemma_count_pads_bound(marks);
    lemma_padded_prefix_counts(marks);
    assert forall|p: int| 0 <= p <= marks.len() implies #[trigger] padded_prefix(marks).push(
        count_pads(marks) as usize,
    )[p] <= p by {
        if p < marks.len() {
            lemma_count_pads_bound(marks.take(p));
        }
    }
}

/// For the two prefixes built from the same batches: the padded index of every raw index (the
/// sentinel included) converts back to that raw index.
pub proof fn lemma_prefixes_round_trip(
    op_batches: Seq<OpBatch>,
    raw2pad: RawToPaddedPrefix,
    pad2raw: PaddedToRawPrefix,
)
    requires
        padding_marks(op_batches, op_batches.len() as int).len() < usize::MAX,
        raw2pad@ == ({
            let marks = padding_marks(op_batches, op_batches.len() as int);
            raw_prefix(marks).push(count_pads(marks) as usize)
        }),
        pad2raw@ == ({
            let marks = padding_marks(op_batches, op_batches.len() as int);
            padded_prefix(marks).push(count_pads(marks) as usize)
        }),
    ensures
        forall|r: int|
            #![trigger raw2pad@[r]]
            0 <= r < raw2pad@.len() ==> r + raw2pad@[r] < pad2raw@.len() && r + raw2pad@[r]
                - pad2raw@[r + raw2pad@[r]] == r,
{
    let marks = padding_marks(op_batches, op_batches.len() as int);
    lemma_padding_round_trip(marks);
}

} // verus!
