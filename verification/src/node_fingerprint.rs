//! Fingerprints that tell nodes apart when merging forests: a node's MAST root together with a
//! root committing to the decorators of the node and of its descendants.
use vstd::prelude::*;

use miden_crypto::hash::blake::Blake3_256;

use crate::ids::{DecoratorId, MastNodeId};
use crate::debuginfo::DecoratedOpLink;
use crate::mast_forest::{MastForestError, Word};
use crate::op_padding::{
    OpBatch, PaddedToRawPrefix, batches_wf, count_pads, lemma_count_pads_bound,
    lemma_padded_prefix_le, padded_prefix, padding_marks,
};

verus! {

/// The fingerprint of a decorator: a 32-byte BLAKE3 digest.
pub type DecoratorFingerprint = [u8; 32];

/// The BLAKE3-256 digest of a byte string.
pub uninterp spec fn blake3_256(bytes: Seq<u8>) -> Seq<u8>;

/// Hashes bytes with `miden_crypto::hash::blake::Blake3_256::hash`.
///
/// Trusted: the result is the 32 bytes of the digest that function returns for `bytes`; nothing
/// more is claimed of it than that it is that function of the bytes.
#[verifier::external_body]
fn blake3_hash(bytes: &[u8]) -> (r: DecoratorFingerprint)
    ensures
        r@ == blake3_256(bytes@),
{
    Blake3_256::hash(bytes).into()
}

/// The model of a node fingerprint.
pub ghost struct MastNodeFingerprintView {
    pub mast_root: Seq<u64>,
    pub decorator_root: Option<Seq<u8>>,
}

/// What tells two nodes apart: the MAST root, and a root over the decorators of the node and of
/// its descendants, absent exactly when the node and all its descendants have no decorators.
#[derive(Debug, Clone, Copy, PartialEq, Eq)]
pub struct MastNodeFingerprint {
    mast_root: Word,
    decorator_root: Option<DecoratorFingerprint>,
}

impl View for MastNodeFingerprint {
    type V = MastNodeFingerprintView;

    closed spec fn view(&self) -> MastNodeFingerprintView {
        MastNodeFingerprintView {
            mast_root: self.mast_root@,
            decorator_root: match self.decorator_root {
                Some(r) => Some(r@),
                None => None,
            },
        }
    }
}

impl MastNodeFingerprint {
    /// A fingerprint with the given MAST root and no decorator root.
    pub fn new(mast_root: Word) -> (f: Self)
        ensures
            f@ == (MastNodeFingerprintView { mast_root: mast_root@, decorator_root: None }),
    {
        MastNodeFingerprint { mast_root, decorator_root: None }
    }

    /// A fingerprint with the given MAST root and decorator root.
    pub fn with_decorator_root(mast_root: Word, decorator_root: DecoratorFingerprint) -> (f: Self)
        ensures
            f@ == (MastNodeFingerprintView {
                mast_root: mast_root@,
                decorator_root: Some(decorator_root@),
            }),
    {
        MastNodeFingerprint { mast_root, decorator_root: Some(decorator_root) }
    }

    /// Whether this fingerprint and `other` are the same.
    pub fn same_as(&self, other: &MastNodeFingerprint) -> (r: bool)
        ensures
            r == (self@ == other@),
    {
        if !same_u64s(&self.mast_root, &other.mast_root) {
            return false;
        }
        match (&self.decorator_root, &other.decorator_root) {
            (Some(a), Some(b)) => same_bytes(a, b),
            (None, None) => true,
            _ => false,
        }
    }

    /// The MAST root.
    pub fn mast_root(&self) -> (r: &Word)
        ensures
            r@ == self@.mast_root,
    {
        &self.mast_root
    }
}

/// Whether two words hold the same elements.
pub(crate) fn same_u64s(a: &Word, b: &Word) -> (r: bool)
    ensures
        r == (a@ == b@),
{
    let mut i: usize = 0;
    while i < 4
        invariant
            i <= 4,
            a@.len() == 4,
            b@.len() == 4,
            forall|j: int| 0 <= j < i ==> a@[j] == b@[j],
        decreases 4 - i,
    {
        if a[i] != b[i] {
            return false;
        }
        i = i + 1;
    }
    assert(a@ =~= b@);
    true
}

/// Whether two fingerprints hold the same bytes.
pub(crate) fn same_bytes(a: &DecoratorFingerprint, b: &DecoratorFingerprint) -> (r: bool)
    ensures
        r == (a@ == b@),
{
    let mut i: usize = 0;
    while i < 32
        invariant
            i <= 32,
            a@.len() == 32,
            b@.len() == 32,
            forall|j: int| 0 <= j < i ==> a@[j] == b@[j],
        decreases 32 - i,
    {
        if a[i] != b[i] {
            return false;
        }
        i = i + 1;
    }
    assert(a@ =~= b@);
    true
}

/// The fingerprints of the decorators `ids` (looked up in `fingerprints` by id), one after the
/// other.
pub open spec fn decorator_bytes(fingerprints: Seq<Seq<u8>>, ids: Seq<DecoratorId>) -> Seq<u8>
    decreases ids.len(),
{
    if ids.len() == 0 {
        Seq::empty()
    } else {
        decorator_bytes(fingerprints, ids.drop_last()) + fingerprints[ids.last().index() as int]
    }
}

/// The decorator roots of `children` that have one, in order; or the first child that has no
/// fingerprint in `lookup` (where node `n` has the fingerprint `lookup[n]` when `n` is below its
/// length).
pub open spec fn children_roots(lookup: Seq<MastNodeFingerprintView>, children: Seq<MastNodeId>) -> Result<
    Seq<Seq<u8>>,
    MastForestError,
>
    decreases children.len(),
{
    if children.len() == 0 {
        Ok(Seq::empty())
    } else {
        match children_roots(lookup, children.drop_last()) {
            Err(e) => Err(e),
            Ok(roots) => {
                let c = children.last();
                if c.index() >= lookup.len() {
                    Err(MastForestError::ChildFingerprintMissing(c))
                } else {
                    match lookup[c.index() as int].decorator_root {
                        Some(r) => Ok(roots.push(r)),
                        None => Ok(roots),
                    }
                }
            },
        }
    }
}

/// The byte strings of `parts`, one after the other.
pub open spec fn concat(parts: Seq<Seq<u8>>) -> Seq<u8>
    decreases parts.len(),
{
    if parts.len() == 0 {
        Seq::empty()
    } else {
        concat(parts.drop_last()) + parts.last()
    }
}

/// The fingerprint of a node with these decorators, children and digest: no decorator root when
/// the node has no decorators and no child has a decorator root; otherwise the BLAKE3 digest of
/// the fingerprints of the decorators run before, those run after, and the children's decorator
/// roots.
pub open spec fn fingerprint_of(
    fingerprints: Seq<Seq<u8>>,
    lookup: Seq<MastNodeFingerprintView>,
    before_enter: Seq<DecoratorId>,
    after_exit: Seq<DecoratorId>,
    children: Seq<MastNodeId>,
    digest: Seq<u64>,
) -> Result<MastNodeFingerprintView, MastForestError> {
    match children_roots(lookup, children) {
        Err(e) => Err(e),
        Ok(roots) => if before_enter.len() == 0 && after_exit.len() == 0 && roots.len() == 0 {
            Ok(MastNodeFingerprintView { mast_root: digest, decorator_root: None })
        } else {
            Ok(
                MastNodeFingerprintView {
                    mast_root: digest,
                    decorator_root: Some(
                        blake3_256(
                            decorator_bytes(fingerprints, before_enter) + decorator_bytes(
                                fingerprints,
                                after_exit,
                            ) + concat(roots),
                        ),
                    ),
                },
            )
        },
    }
}

/// The fingerprints of a list of decorators, each a 32-byte string.
pub open spec fn fingerprint_seqs(fingerprints: Seq<DecoratorFingerprint>) -> Seq<Seq<u8>> {
    Seq::new(fingerprints.len(), |i: int| fingerprints[i]@)
}

/// The models of a list of node fingerprints.
pub open spec fn fingerprint_views(lookup: Seq<MastNodeFingerprint>) -> Seq<MastNodeFingerprintView> {
    Seq::new(lookup.len(), |i: int| lookup[i]@)
}

/// Every id in `ids` has a fingerprint in a list of `n` fingerprints.
pub open spec fn ids_below(ids: Seq<DecoratorId>, n: nat) -> bool {
    forall|i: int| 0 <= i < ids.len() ==> (#[trigger] ids[i]).index() < n
}

/// Appends the fingerprints of `ids` to `bytes`.
fn append_decorator_bytes(
    bytes: &mut Vec<u8>,
    decorator_fingerprints: &[DecoratorFingerprint],
    ids: &[DecoratorId],
)
    requires
        ids_below(ids@, decorator_fingerprints@.len()),
    ensures
        final(bytes)@ == old(bytes)@ + decorator_bytes(
            fingerprint_seqs(decorator_fingerprints@),
            ids@,
        ),
{
    let ghost fps = fingerprint_seqs(decorator_fingerprints@);
    let ghost start = bytes@;
    let mut i: usize = 0;
    while i < ids.len()
        invariant
            i <= ids@.len(),
            ids_below(ids@, decorator_fingerprints@.len()),
            fps == fingerprint_seqs(decorator_fingerprints@),
            bytes@ == start + decorator_bytes(fps, ids@.take(i as int)),
        decreases ids@.len() - i,
    {
        let fp = decorator_fingerprints[ids[i].0 as usize];
        append_bytes(bytes, &fp);
        proof {
            assert(ids@.take(i + 1).drop_last() =~= ids@.take(i as int));
            assert(fps[ids@[i as int].index() as int] == fp@);
        }
        i = i + 1;
    }
    proof {
        assert(ids@.take(ids@.len() as int) =~= ids@);
    }
}

/// Appends 32 bytes to `bytes`.
fn append_bytes(bytes: &mut Vec<u8>, part: &[u8; 32])
    ensures
        final(bytes)@ == old(bytes)@ + part@,
{
    let ghost start = bytes@;
    let mut i: usize = 0;
    while i < 32
        invariant
            i <= 32,
            part@.len() == 32,
            bytes@ == start + part@.take(i as int),
        decreases 32 - i,
    {
        bytes.push(part[i]);
        proof {
            assert(part@.take(i + 1) =~= part@.take(i as int).push(part@[i as int]));
        }
        i = i + 1;
    }
    proof {
        assert(part@.take(32) =~= part@);
    }
}

/// Computes the fingerprint of a node from its parts: the fingerprints of the forest's
/// decorators (by id), the fingerprints of the nodes already known (node `n` has
/// `hash_by_node_id[n]` when `n` is below its length), the node's decorators, its children and
/// its digest.
///
/// Fails with `ChildFingerprintMissing` on the first child whose fingerprint is not known.
pub fn fingerprint_from_parts(
    decorator_fingerprints: &[DecoratorFingerprint],
    hash_by_node_id: &[MastNodeFingerprint],
    before_enter_ids: &[DecoratorId],
    after_exit_ids: &[DecoratorId],
    children_ids: &[MastNodeId],
    node_digest: Word,
) -> (r: Result<MastNodeFingerprint, MastForestError>)
    requires
        ids_below(before_enter_ids@, decorator_fingerprints@.len()),
        ids_below(after_exit_ids@, decorator_fingerprints@.len()),
    ensures
        match r {
            Ok(f) => fingerprint_of(
                fingerprint_seqs(decorator_fingerprints@),
                fingerprint_views(hash_by_node_id@),
                before_enter_ids@,
                after_exit_ids@,
                children_ids@,
                node_digest@,
            ) == Ok::<MastNodeFingerprintView, MastForestError>(f@),
            Err(e) => fingerprint_of(
                fingerprint_seqs(decorator_fingerprints@),
                fingerprint_views(hash_by_node_id@),
                before_enter_ids@,
                after_exit_ids@,
                children_ids@,
                node_digest@,
            ) == Err::<MastNodeFingerprintView, MastForestError>(e),
        },
{
    let ghost lookup = fingerprint_views(hash_by_node_id@);
    let mut roots: Vec<DecoratorFingerprint> = Vec::new();
    let mut i: usize = 0;
    proof {
        assert(children_ids@.take(0) =~= Seq::<MastNodeId>::empty());
        assert(fingerprint_seqs(roots@) =~= Seq::<Seq<u8>>::empty());
    }
    while i < children_ids.len()
        invariant
            i <= children_ids@.len(),
            lookup == fingerprint_views(hash_by_node_id@),
            children_roots(lookup, children_ids@.take(i as int)) == Ok::<
                Seq<Seq<u8>>,
                MastForestError,
            >(fingerprint_seqs(roots@)),
        decreases children_ids@.len() - i,
    {
        let child = children_ids[i];
        proof {
            assert(children_ids@.take(i + 1).drop_last() =~= children_ids@.take(i as int));
            assert(children_ids@.take(i + 1).last() == child);
        }
        if child.to_usize() >= hash_by_node_id.len() {
            proof {
                lemma_children_roots_err_stays(lookup, children_ids@, i as int + 1);
            }
            return Err(MastForestError::ChildFingerprintMissing(child));
        }
        let ghost before = roots@;
        match hash_by_node_id[child.to_usize()].decorator_root {
            Some(root) => {
                roots.push(root);
                proof {
                    assert(fingerprint_seqs(roots@) =~= fingerprint_seqs(before).push(root@));
                }
            },
            None => {},
        }
        i = i + 1;
    }
    proof {
        assert(children_ids@.take(children_ids@.len() as int) =~= children_ids@);
    }
    if before_enter_ids.len() == 0 && after_exit_ids.len() == 0 && roots.len() == 0 {
        return Ok(MastNodeFingerprint::new(node_digest));
    }
    let mut bytes: Vec<u8> = Vec::new();
    append_decorator_bytes(&mut bytes, decorator_fingerprints, before_enter_ids);
    append_decorator_bytes(&mut bytes, decorator_fingerprints, after_exit_ids);
    let ghost decorators_part = bytes@;
    let mut j: usize = 0;
    while j < roots.len()
        invariant
            j <= roots@.len(),
            bytes@ == decorators_part + concat(fingerprint_seqs(roots@).take(j as int)),
        decreases roots@.len() - j,
    {
        let root = roots[j];
        append_bytes(&mut bytes, &root);
        proof {
            assert(fingerprint_seqs(roots@).take(j + 1).drop_last() =~= fingerprint_seqs(
                roots@,
            ).take(j as int));
        }
        j = j + 1;
    }
    proof {
        assert(fingerprint_seqs(roots@).take(roots@.len() as int) =~= fingerprint_seqs(roots@));
        assert(bytes@ =~= decorator_bytes(fingerprint_seqs(decorator_fingerprints@), before_enter_ids@)
            + decorator_bytes(fingerprint_seqs(decorator_fingerprints@), after_exit_ids@) + concat(
            fingerprint_seqs(roots@),
        ));
    }
    let decorator_root = blake3_hash(bytes.as_slice());
    Ok(MastNodeFingerprint::with_decorator_root(node_digest, decorator_root))
}

/// The decorator root of a fingerprint is absent exactly when the node has no decorators and
/// none of its children has a decorator root.
pub proof fn lemma_decorator_root_absent_iff(
    fingerprints: Seq<Seq<u8>>,
    lookup: Seq<MastNodeFingerprintView>,
    before_enter: Seq<DecoratorId>,
    after_exit: Seq<DecoratorId>,
    children: Seq<MastNodeId>,
    digest: Seq<u64>,
)
    requires
        fingerprint_of(fingerprints, lookup, before_enter, after_exit, children, digest) is Ok,
    ensures
        ({
            let f = fingerprint_of(fingerprints, lookup, before_enter, after_exit, children, digest)->Ok_0;
            &&& f.mast_root == digest
            &&& (f.decorator_root is None) <==> (before_enter.len() == 0 && after_exit.len() == 0
                && forall|i: int|
                0 <= i < children.len() ==> lookup[(#[trigger] children[i]).index() as int].decorator_root is None)
        }),
{
    lemma_children_roots_empty_iff(lookup, children);
}

/// A list of children with known fingerprints gives no decorator roots exactly when none of them
/// has one.
proof fn lemma_children_roots_empty_iff(
    lookup: Seq<MastNodeFingerprintView>,
    children: Seq<MastNodeId>,
)
    requires
        children_roots(lookup, children) is Ok,
    ensures
        (children_roots(lookup, children)->Ok_0.len() == 0) <==> forall|i: int|
            0 <= i < children.len() ==> lookup[(#[trigger] children[i]).index() as int].decorator_root is None,
    decreases children.len(),
{
    if children.len() > 0 {
        let init = children.drop_last();
        let last = children.len() - 1;
        let c = children.last();
        assert(children_roots(lookup, init) is Ok);
        lemma_children_roots_empty_iff(lookup, init);
        let all_none = forall|i: int|
            0 <= i < children.len() ==> lookup[(#[trigger] children[i]).index() as int].decorator_root is None;
        let init_none = forall|i: int|
            0 <= i < init.len() ==> lookup[(#[trigger] init[i]).index() as int].decorator_root is None;
        assert(children[last] == c);
        if lookup[c.index() as int].decorator_root is Some {
            assert(!all_none) by {
                assert(lookup[children[last].index() as int].decorator_root is Some);
            }
        } else {
            assert(all_none <==> init_none) by {
                if init_none {
                    assert forall|i: int| 0 <= i < children.len() implies lookup[(
                    #[trigger] children[i]).index() as int].decorator_root is None by {
                        if i < last {
                            assert(init[i] == children[i]);
                        }
                    }
                }
                if all_none {
                    assert forall|i: int| 0 <= i < init.len() implies lookup[(
                    #[trigger] init[i]).index() as int].decorator_root is None by {
                        assert(init[i] == children[i]);
                    }
                }
            }
        }
    }
}

/// Once a prefix of the children fails, every longer prefix fails the same way.
proof fn lemma_children_roots_err_stays(
    lookup: Seq<MastNodeFingerprintView>,
    children: Seq<MastNodeId>,
    k: int,
)
    requires
        0 < k <= children.len(),
        children_roots(lookup, children.take(k)) is Err,
    ensures
        children_roots(lookup, children) == children_roots(lookup, children.take(k)),
    decreases children.len() - k,
{
    if k < children.len() {
        assert(children.take(k + 1).drop_last() =~= children.take(k));
        lemma_children_roots_err_stays(lookup, children, k + 1);
    } else {
        assert(children.take(k) =~= children);
    }
}

/// Byte `i` (from the least significant) of `x`.
pub open spec fn le_byte(x: u64, i: u64) -> u8 {
    ((x >> (8 * i) as u64) & 0xff) as u8
}

/// The `n` least significant bytes of `x`, least significant first.
pub open spec fn le_bytes(x: u64, n: nat) -> Seq<u8> {
    Seq::new(n, |i: int| le_byte(x, i as u64))
}

/// The padded-to-raw prefix of a block laid out in `op_batches`: entry `p` is the number of
/// padding operations before padded index `p`, up to and including the total.
pub open spec fn pad_to_raw_prefix(op_batches: Seq<OpBatch>) -> Seq<usize> {
    let marks = padding_marks(op_batches, op_batches.len() as int);
    padded_prefix(marks).push(count_pads(marks) as usize)
}

/// The bytes of the op-indexed decorators `links` (at padded indices): for each, its raw index as
/// eight little-endian bytes, then its fingerprint.
pub open spec fn op_decorator_bytes(
    fingerprints: Seq<Seq<u8>>,
    pad2raw: Seq<usize>,
    links: Seq<DecoratedOpLink>,
) -> Seq<u8>
    decreases links.len(),
{
    if links.len() == 0 {
        Seq::empty()
    } else {
        let l = links.last();
        op_decorator_bytes(fingerprints, pad2raw, links.drop_last()) + le_bytes(
            (l.0 - pad2raw[l.0 as int]) as u64,
            8,
        ) + fingerprints[l.1.index() as int]
    }
}

/// The bytes of the assertions `asserts` (padded operation index, opcode, inner value): for each,
/// the opcode, the index as four little-endian bytes and the value as eight.
pub open spec fn assert_bytes(asserts: Seq<(usize, u8, u64)>) -> Seq<u8>
    decreases asserts.len(),
{
    if asserts.len() == 0 {
        Seq::empty()
    } else {
        let a = asserts.last();
        assert_bytes(asserts.drop_last()) + seq![a.1] + le_bytes(a.0 as u64, 4) + le_bytes(a.2, 8)
    }
}

/// The fingerprint of a basic block: its digest, with a decorator root over the fingerprints of
/// its `before_enter` decorators, of its op-indexed decorators (each after its raw index), of its
/// `after_exit` decorators, and the bytes of its assertions; no root when all of these are empty.
pub open spec fn block_fingerprint(
    fingerprints: Seq<Seq<u8>>,
    op_batches: Seq<OpBatch>,
    asserts: Seq<(usize, u8, u64)>,
    before_enter: Seq<DecoratorId>,
    decorators: Seq<DecoratedOpLink>,
    after_exit: Seq<DecoratorId>,
    digest: Seq<u64>,
) -> MastNodeFingerprintView {
    let bytes = decorator_bytes(fingerprints, before_enter) + op_decorator_bytes(
        fingerprints,
        pad_to_raw_prefix(op_batches),
        decorators,
    ) + decorator_bytes(fingerprints, after_exit) + assert_bytes(asserts);
    if bytes.len() == 0 {
        MastNodeFingerprintView { mast_root: digest, decorator_root: None }
    } else {
        MastNodeFingerprintView { mast_root: digest, decorator_root: Some(blake3_256(bytes)) }
    }
}

/// Appends the `n` least significant bytes of `x` to `bytes`, least significant first.
fn append_le_bytes(bytes: &mut Vec<u8>, x: u64, n: u64)
    requires
        n <= 8,
    ensures
        final(bytes)@ == old(bytes)@ + le_bytes(x, n as nat),
{
    let ghost start = bytes@;
    let mut i: u64 = 0;
    while i < n
        invariant
            i <= n,
            n <= 8,
            bytes@ == start + le_bytes(x, i as nat),
        decreases n - i,
    {
        let b = ((x >> (8 * i)) & 0xff) as u8;
        bytes.push(b);
        proof {
            assert(b == le_byte(x, i));
            assert(le_bytes(x, (i + 1) as nat) =~= le_bytes(x, i as nat).push(b));
        }
        i = i + 1;
    }
}

/// Computes the fingerprint of a basic block, as `block_fingerprint` says: `op_batches` is its
/// batch layout, `assert_ops` its assertion operations (padded index, opcode, inner value),
/// `decorators` its op-indexed decorators at padded indices, and `digest` its MAST root.
pub fn basic_block_fingerprint(
    decorator_fingerprints: &[DecoratorFingerprint],
    op_batches: &[OpBatch],
    assert_ops: &[(usize, u8, u64)],
    before_enter: &[DecoratorId],
    decorators: &[DecoratedOpLink],
    after_exit: &[DecoratorId],
    digest: Word,
) -> (r: MastNodeFingerprint)
    requires
        batches_wf(op_batches@),
        padding_marks(op_batches@, op_batches@.len() as int).len() < usize::MAX,
        ids_below(before_enter@, decorator_fingerprints@.len()),
        ids_below(after_exit@, decorator_fingerprints@.len()),
        forall|i: int|
            0 <= i < decorators@.len() ==> (#[trigger] decorators@[i]).0 <= padding_marks(
                op_batches@,
                op_batches@.len() as int,
            ).len() && decorators@[i].1.index() < decorator_fingerprints@.len(),
        forall|i: int| 0 <= i < assert_ops@.len() ==> (#[trigger] assert_ops@[i]).0 <= u32::MAX,
    ensures
        r@ == block_fingerprint(
            fingerprint_seqs(decorator_fingerprints@),
            op_batches@,
            assert_ops@,
            before_enter@,
            decorators@,
            after_exit@,
            digest@,
        ),
{
    let ghost fps = fingerprint_seqs(decorator_fingerprints@);
    let ghost marks = padding_marks(op_batches@, op_batches@.len() as int);
    let pad2raw = PaddedToRawPrefix::new(op_batches);
    proof {
        lemma_padded_prefix_le(marks);
        lemma_count_pads_bound(marks);
    }
    let mut bytes: Vec<u8> = Vec::new();
    append_decorator_bytes(&mut bytes, decorator_fingerprints, before_enter);
    let ghost part1 = bytes@;
    let mut i: usize = 0;
    proof {
        assert(decorators@.take(0) =~= Seq::<DecoratedOpLink>::empty());
    }
    while i < decorators.len()
        invariant
            i <= decorators@.len(),
            fps == fingerprint_seqs(decorator_fingerprints@),
            marks == padding_marks(op_batches@, op_batches@.len() as int),
            marks.len() < usize::MAX,
            pad2raw@ == pad_to_raw_prefix(op_batches@),
            pad2raw@.len() == marks.len() + 1,
            forall|p: int| 0 <= p <= marks.len() ==> #[trigger] pad2raw@[p] <= p,
            forall|j: int|
                0 <= j < decorators@.len() ==> (#[trigger] decorators@[j]).0 <= marks.len()
                    && decorators@[j].1.index() < decorator_fingerprints@.len(),
            bytes@ == part1 + op_decorator_bytes(fps, pad2raw@, decorators@.take(i as int)),
        decreases decorators@.len() - i,
    {
        let (padded, id) = decorators[i];
        proof {
            assert(decorators@[i as int] == (padded, id));
            assert(pad2raw@[padded as int] <= padded);
        }
        let raw = padded - pad2raw.index(padded);
        append_le_bytes(&mut bytes, raw as u64, 8);
        let fp = decorator_fingerprints[id.0 as usize];
        append_bytes(&mut bytes, &fp);
        proof {
            assert(decorators@.take(i + 1).drop_last() =~= decorators@.take(i as int));
            assert(decorators@.take(i + 1).last() == (padded, id));
            assert(fps[id.index() as int] == fp@);
        }
        i = i + 1;
    }
    proof {
        assert(decorators@.take(decorators@.len() as int) =~= decorators@);
    }
    let ghost part2 = bytes@;
    append_decorator_bytes(&mut bytes, decorator_fingerprints, after_exit);
    let ghost part3 = bytes@;
    let mut k: usize = 0;
    proof {
        assert(assert_ops@.take(0) =~= Seq::<(usize, u8, u64)>::empty());
    }
    while k < assert_ops.len()
        invariant
            k <= assert_ops@.len(),
            forall|j: int| 0 <= j < assert_ops@.len() ==> (#[trigger] assert_ops@[j]).0 <= u32::MAX,
            bytes@ == part3 + assert_bytes(assert_ops@.take(k as int)),
        decreases assert_ops@.len() - k,
    {
        let (idx, opcode, value) = assert_ops[k];
        proof {
            assert(assert_ops@[k as int] == (idx, opcode, value));
        }
        bytes.push(opcode);
        append_le_bytes(&mut bytes, idx as u64, 4);
        append_le_bytes(&mut bytes, value, 8);
        proof {
            assert(assert_ops@.take(k + 1).drop_last() =~= assert_ops@.take(k as int));
            assert(assert_ops@.take(k + 1).last() == (idx, opcode, value));
        }
        k = k + 1;
    }
    proof {
        assert(assert_ops@.take(assert_ops@.len() as int) =~= assert_ops@);
        assert(bytes@ =~= decorator_bytes(fps, before_enter@) + op_decorator_bytes(
            fps,
            pad_to_raw_prefix(op_batches@),
            decorators@,
        ) + decorator_bytes(fps, after_exit@) + assert_bytes(assert_ops@));
    }
    if bytes.len() == 0 {
        MastNodeFingerprint::new(digest)
    } else {
        let root = blake3_hash(bytes.as_slice());
        MastNodeFingerprint::with_decorator_root(digest, root)
    }
}

/// The number of `children` whose fingerprint in `lookup` has a decorator root.
pub open spec fn rooted_count(lookup: Seq<MastNodeFingerprintView>, children: Seq<MastNodeId>) -> nat
    decreases children.len(),
{
    if children.len() == 0 {
        0
    } else {
        rooted_count(lookup, children.drop_last()) + if lookup[children.last().index() as int].decorator_root is Some {
            1nat
        } else {
            0nat
        }
    }
}

/// The 32 bytes of `bytes` at 32-byte slot `k`.
pub open spec fn slot32(bytes: Seq<u8>, k: int) -> Seq<u8> {
    bytes.subrange(32 * k, 32 * k + 32)
}

/// `bytes` is, slot by slot: the fingerprint of each `before_enter` decorator, that of each
/// `after_exit` decorator, then the decorator root of each child that has one, in child order.
pub open spec fn covers_parts(
    bytes: Seq<u8>,
    fingerprints: Seq<Seq<u8>>,
    lookup: Seq<MastNodeFingerprintView>,
    before_enter: Seq<DecoratorId>,
    after_exit: Seq<DecoratorId>,
    children: Seq<MastNodeId>,
) -> bool {
    let nb = before_enter.len() as int;
    let na = after_exit.len() as int;
    &&& bytes.len() == 32 * (nb + na + rooted_count(lookup, children))
    &&& forall|i: int| 0 <= i < nb ==> slot32(bytes, i) == fingerprints[(#[trigger] before_enter[i]).index() as int]
    &&& forall|i: int| 0 <= i < na ==> slot32(bytes, nb + i) == fingerprints[(#[trigger] after_exit[i]).index() as int]
    &&& forall|k: int|
        0 <= k < children.len() && lookup[(#[trigger] children[k]).index() as int].decorator_root is Some
            ==> slot32(bytes, nb + na + rooted_count(lookup, children.take(k)))
            == lookup[children[k].index() as int].decorator_root->0
}

proof fn lemma_decorator_bytes_slots(fingerprints: Seq<Seq<u8>>, ids: Seq<DecoratorId>)
    requires
        forall|j: int| 0 <= j < fingerprints.len() ==> (#[trigger] fingerprints[j]).len() == 32,
        ids_below(ids, fingerprints.len()),
    ensures
        decorator_bytes(fingerprints, ids).len() == 32 * ids.len(),
        forall|i: int| 0 <= i < ids.len() ==> slot32(decorator_bytes(fingerprints, ids), i)
            == fingerprints[(#[trigger] ids[i]).index() as int],
    decreases ids.len(),
{
    if ids.len() > 0 {
        let prev = ids.drop_last();
        assert(ids_below(prev, fingerprints.len())) by {
            assert forall|i: int| 0 <= i < prev.len() implies (#[trigger] prev[i]).index() < fingerprints.len() by {
                assert(prev[i] == ids[i]);
            }
        }
        lemma_decorator_bytes_slots(fingerprints, prev);
        let d0 = decorator_bytes(fingerprints, prev);
        let last = fingerprints[ids.last().index() as int];
        assert(ids[ids.len() - 1].index() < fingerprints.len());
        assert forall|i: int| 0 <= i < ids.len() implies slot32(decorator_bytes(fingerprints, ids), i)
            == fingerprints[(#[trigger] ids[i]).index() as int] by {
            if i < prev.len() {
                assert(prev[i] == ids[i]);
                assert(slot32(d0 + last, i) =~= slot32(d0, i));
            } else {
                assert(slot32(d0 + last, i) =~= last);
            }
        }
    }
}

proof fn lemma_children_roots_slots(lookup: Seq<MastNodeFingerprintView>, children: Seq<MastNodeId>)
    requires
        forall|c: int| 0 <= c < children.len() ==> (#[trigger] children[c]).index() < lookup.len(),
        forall|k: int|
            0 <= k < lookup.len() && (#[trigger] lookup[k]).decorator_root is Some ==> lookup[k].decorator_root->0.len() == 32,
    ensures
        children_roots(lookup, children) is Ok,
        concat(children_roots(lookup, children)->Ok_0).len() == 32 * rooted_count(lookup, children),
        children_roots(lookup, children)->Ok_0.len() == rooted_count(lookup, children),
        forall|k: int|
            0 <= k < children.len() && lookup[(#[trigger] children[k]).index() as int].decorator_root is Some
                ==> slot32(concat(children_roots(lookup, children)->Ok_0), rooted_count(lookup, children.take(k)) as int)
                == lookup[children[k].index() as int].decorator_root->0,
    decreases children.len(),
{
    if children.len() > 0 {
        let prev = children.drop_last();
        assert forall|c: int| 0 <= c < prev.len() implies (#[trigger] prev[c]).index() < lookup.len() by {
            assert(prev[c] == children[c]);
        }
        lemma_children_roots_slots(lookup, prev);
        let roots = children_roots(lookup, prev)->Ok_0;
        let c = children.last();
        assert(c == children[children.len() - 1]);
        let r0 = concat(roots);
        assert forall|k: int|
            0 <= k < children.len() && lookup[(#[trigger] children[k]).index() as int].decorator_root is Some
                implies slot32(concat(children_roots(lookup, children)->Ok_0), rooted_count(lookup, children.take(k)) as int)
                == lookup[children[k].index() as int].decorator_root->0 by {
            if k < prev.len() {
                assert(prev[k] == children[k]);
                assert(prev.take(k) =~= children.take(k));
                lemma_rooted_count_le(lookup, prev, k);
                match lookup[c.index() as int].decorator_root {
                    Some(r) => {
                        assert(concat(roots.push(r)) == r0 + r) by {
                            assert(roots.push(r).drop_last() =~= roots);
                        }
                        assert(slot32(r0 + r, rooted_count(lookup, children.take(k)) as int) =~= slot32(r0, rooted_count(lookup, children.take(k)) as int));
                    },
                    None => {},
                }
            } else {
                assert(children.take(k) =~= prev);
                let r = lookup[c.index() as int].decorator_root->0;
                assert(concat(roots.push(r)) == r0 + r) by {
                    assert(roots.push(r).drop_last() =~= roots);
                }
                assert(slot32(r0 + r, rooted_count(lookup, prev) as int) =~= r);
            }
        }
        match lookup[c.index() as int].decorator_root {
            Some(r) => {
                assert(roots.push(r).drop_last() =~= roots);
            },
            None => {},
        }
    }
}

proof fn lemma_rooted_count_le(lookup: Seq<MastNodeFingerprintView>, children: Seq<MastNodeId>, k: int)
    requires
        0 <= k < children.len(),
        lookup[children[k].index() as int].decorator_root is Some,
    ensures
        rooted_count(lookup, children.take(k)) + 1 <= rooted_count(lookup, children),
    decreases children.len(),
{
    let prev = children.drop_last();
    if k < children.len() - 1 {
        assert(prev[k] == children[k]);
        assert(prev.take(k) =~= children.take(k));
        lemma_rooted_count_le(lookup, prev, k);
    } else {
        assert(children.take(k) =~= prev);
    }
}

/// What a node's fingerprint holds, for every choice of parts: its MAST root is the node's
/// digest, and it has a decorator root exactly when the node has a decorator or one of its
/// children has a decorator root. That root is the BLAKE3 hash of bytes made, slot by slot, of
/// the fingerprints of the node's `before_enter` decorators, of its `after_exit` decorators, and
/// the decorator roots of all its children that have one, in child order; so two nodes whose
/// parts differ anywhere (one child's decorator root among them) hash different bytes.
pub proof fn lemma_fingerprint_hashes_all_parts(
    fingerprints: Seq<Seq<u8>>,
    lookup: Seq<MastNodeFingerprintView>,
    before_enter: Seq<DecoratorId>,
    after_exit: Seq<DecoratorId>,
    children: Seq<MastNodeId>,
    digest: Seq<u64>,
)
    requires
        forall|j: int| 0 <= j < fingerprints.len() ==> (#[trigger] fingerprints[j]).len() == 32,
        ids_below(before_enter, fingerprints.len()),
        ids_below(after_exit, fingerprints.len()),
        forall|c: int| 0 <= c < children.len() ==> (#[trigger] children[c]).index() < lookup.len(),
        forall|k: int|
            0 <= k < lookup.len() && (#[trigger] lookup[k]).decorator_root is Some ==> lookup[k].decorator_root->0.len() == 32,
    ensures
        fingerprint_of(fingerprints, lookup, before_enter, after_exit, children, digest) is Ok,
        fingerprint_of(fingerprints, lookup, before_enter, after_exit, children, digest)->Ok_0.mast_root == digest,
        (fingerprint_of(fingerprints, lookup, before_enter, after_exit, children, digest)->Ok_0.decorator_root is None)
            <==> (before_enter.len() == 0 && after_exit.len() == 0 && rooted_count(lookup, children) == 0),
        fingerprint_of(fingerprints, lookup, before_enter, after_exit, children, digest)->Ok_0.decorator_root is Some
            ==> exists|bytes: Seq<u8>|
            fingerprint_of(fingerprints, lookup, before_enter, after_exit, children, digest)->Ok_0.decorator_root
                == Some(#[trigger] blake3_256(bytes)) && covers_parts(
                bytes,
                fingerprints,
                lookup,
                before_enter,
                after_exit,
                children,
            ),
{
    lemma_decorator_bytes_slots(fingerprints, before_enter);
    lemma_decorator_bytes_slots(fingerprints, after_exit);
    lemma_children_roots_slots(lookup, children);
    let b = decorator_bytes(fingerprints, before_enter);
    let a = decorator_bytes(fingerprints, after_exit);
    let r = concat(children_roots(lookup, children)->Ok_0);
    let bytes = b + a + r;
    let nb = before_enter.len() as int;
    let na = after_exit.len() as int;
    assert forall|i: int| 0 <= i < nb implies slot32(bytes, i) == fingerprints[(#[trigger] before_enter[i]).index() as int] by {
        assert(slot32(bytes, i) =~= slot32(b, i));
    }
    assert forall|i: int| 0 <= i < na implies slot32(bytes, nb + i) == fingerprints[(#[trigger] after_exit[i]).index() as int] by {
        assert(slot32(bytes, nb + i) =~= slot32(a, i));
    }
    assert forall|k: int|
        0 <= k < children.len() && lookup[(#[trigger] children[k]).index() as int].decorator_root is Some
            implies slot32(bytes, nb + na + rooted_count(lookup, children.take(k)))
            == lookup[children[k].index() as int].decorator_root->0 by {
        lemma_rooted_count_le(lookup, children, k);
        let q = rooted_count(lookup, children.take(k)) as int;
        assert(slot32(bytes, nb + na + q) =~= slot32(r, q));
    }
    assert(covers_parts(bytes, fingerprints, lookup, before_enter, after_exit, children));
    if fingerprint_of(fingerprints, lookup, before_enter, after_exit, children, digest)->Ok_0.decorator_root is Some {
        assert(fingerprint_of(fingerprints, lookup, before_enter, after_exit, children, digest)->Ok_0.decorator_root
            == Some(blake3_256(bytes)));
    }
}

/// The little-endian bytes of a number are its base-256 digits, least significant first.
pub proof fn lemma_le_bytes_digits(x: u64)
    ensures
        le_bytes(x, 8) == seq![
            (x % 256) as u8,
            ((x / 0x100) % 256) as u8,
            ((x / 0x1_0000) % 256) as u8,
            ((x / 0x100_0000) % 256) as u8,
            ((x / 0x1_0000_0000) % 256) as u8,
            ((x / 0x100_0000_0000) % 256) as u8,
            ((x / 0x1_0000_0000_0000) % 256) as u8,
            ((x / 0x100_0000_0000_0000) % 256) as u8,
        ],
        le_bytes(x, 4) == le_bytes(x, 8).take(4),
{
    assert(((x >> 0u64) & 0xff) == x % 256) by (bit_vector);
    assert(((x >> 8u64) & 0xff) == (x / 0x100) % 256) by (bit_vector);
    assert(((x >> 16u64) & 0xff) == (x / 0x1_0000) % 256) by (bit_vector);
    assert(((x >> 24u64) & 0xff) == (x / 0x100_0000) % 256) by (bit_vector);
    assert(((x >> 32u64) & 0xff) == (x / 0x1_0000_0000) % 256) by (bit_vector);
    assert(((x >> 40u64) & 0xff) == (x / 0x100_0000_0000) % 256) by (bit_vector);
    assert(((x >> 48u64) & 0xff) == (x / 0x1_0000_0000_0000) % 256) by (bit_vector);
    assert(((x >> 56u64) & 0xff) == (x / 0x100_0000_0000_0000) % 256) by (bit_vector);
    assert(le_bytes(x, 8) =~= seq![
        (x % 256) as u8,
        ((x / 0x100) % 256) as u8,
        ((x / 0x1_0000) % 256) as u8,
        ((x / 0x100_0000) % 256) as u8,
        ((x / 0x1_0000_0000) % 256) as u8,
        ((x / 0x100_0000_0000) % 256) as u8,
        ((x / 0x1_0000_0000_0000) % 256) as u8,
        ((x / 0x100_0000_0000_0000) % 256) as u8,
    ]);
    assert(le_bytes(x, 4) =~= le_bytes(x, 8).take(4));
}

/// The raw index of an op-indexed decorator at padded index `p`, for a block laid out in
/// `op_batches`: `p` less the paddings before it.
pub open spec fn raw_index_of(op_batches: Seq<OpBatch>, p: usize) -> u64 {
    (p - pad_to_raw_prefix(op_batches)[p as int]) as u64
}

/// `bytes` is, in order: the fingerprint of each `before_enter` decorator (32 bytes each); for
/// each op-indexed decorator its raw index as 8 little-endian bytes then its fingerprint; the
/// fingerprint of each `after_exit` decorator; for each assertion its opcode, its index as 4
/// little-endian bytes and its inner value as 8.
pub open spec fn covers_block(
    bytes: Seq<u8>,
    fingerprints: Seq<Seq<u8>>,
    op_batches: Seq<OpBatch>,
    asserts: Seq<(usize, u8, u64)>,
    before_enter: Seq<DecoratorId>,
    decorators: Seq<DecoratedOpLink>,
    after_exit: Seq<DecoratorId>,
) -> bool {
    let nb = before_enter.len() as int;
    let nd = decorators.len() as int;
    let na = after_exit.len() as int;
    let o2 = 32 * nb;
    let o3 = o2 + 40 * nd;
    let o4 = o3 + 32 * na;
    &&& bytes.len() == o4 + 13 * asserts.len()
    &&& forall|i: int| 0 <= i < nb ==> bytes.subrange(32 * i, 32 * i + 32)
        == fingerprints[(#[trigger] before_enter[i]).index() as int]
    &&& forall|i: int|
        0 <= i < nd ==> bytes.subrange(o2 + 40 * i, o2 + 40 * i + 8) == le_bytes(
            raw_index_of(op_batches, (#[trigger] decorators[i]).0),
            8,
        ) && bytes.subrange(o2 + 40 * i + 8, o2 + 40 * i + 40) == fingerprints[decorators[i].1.index() as int]
    &&& forall|i: int| 0 <= i < na ==> bytes.subrange(o3 + 32 * i, o3 + 32 * i + 32)
        == fingerprints[(#[trigger] after_exit[i]).index() as int]
    &&& forall|k: int|
        0 <= k < asserts.len() ==> bytes[o4 + 13 * k] == (#[trigger] asserts[k]).1 && bytes.subrange(
            o4 + 13 * k + 1,
            o4 + 13 * k + 5,
        ) == le_bytes(asserts[k].0 as u64, 4) && bytes.subrange(o4 + 13 * k + 5, o4 + 13 * k + 13)
            == le_bytes(asserts[k].2, 8)
}

proof fn lemma_op_decorator_bytes_slots(
    fingerprints: Seq<Seq<u8>>,
    op_batches: Seq<OpBatch>,
    links: Seq<DecoratedOpLink>,
)
    requires
        forall|j: int| 0 <= j < fingerprints.len() ==> (#[trigger] fingerprints[j]).len() == 32,
        forall|i: int| 0 <= i < links.len() ==> (#[trigger] links[i]).1.index() < fingerprints.len(),
    ensures
        ({
            let b = op_decorator_bytes(fingerprints, pad_to_raw_prefix(op_batches), links);
            &&& b.len() == 40 * links.len()
            &&& forall|i: int|
                0 <= i < links.len() ==> b.subrange(40 * i, 40 * i + 8) == le_bytes(
                    raw_index_of(op_batches, (#[trigger] links[i]).0),
                    8,
                ) && b.subrange(40 * i + 8, 40 * i + 40) == fingerprints[links[i].1.index() as int]
        }),
    decreases links.len(),
{
    if links.len() > 0 {
        let prev = links.drop_last();
        assert forall|i: int| 0 <= i < prev.len() implies (#[trigger] prev[i]).1.index() < fingerprints.len() by {
            assert(prev[i] == links[i]);
        }
        lemma_op_decorator_bytes_slots(fingerprints, op_batches, prev);
        let p2r = pad_to_raw_prefix(op_batches);
        let b0 = op_decorator_bytes(fingerprints, p2r, prev);
        let l = links.last();
        assert(l == links[links.len() - 1]);
        let tail = le_bytes((l.0 - p2r[l.0 as int]) as u64, 8) + fingerprints[l.1.index() as int];
        let b = op_decorator_bytes(fingerprints, p2r, links);
        assert(b == b0 + tail);
        assert forall|i: int| 0 <= i < links.len() implies b.subrange(40 * i, 40 * i + 8) == le_bytes(
            raw_index_of(op_batches, (#[trigger] links[i]).0),
            8,
        ) && b.subrange(40 * i + 8, 40 * i + 40) == fingerprints[links[i].1.index() as int] by {
            if i < prev.len() {
                assert(prev[i] == links[i]);
                assert(b.subrange(40 * i, 40 * i + 8) =~= b0.subrange(40 * i, 40 * i + 8));
                assert(b.subrange(40 * i + 8, 40 * i + 40) =~= b0.subrange(40 * i + 8, 40 * i + 40));
            } else {
                assert(b.subrange(40 * i, 40 * i + 8) =~= le_bytes((l.0 - p2r[l.0 as int]) as u64, 8));
                assert(b.subrange(40 * i + 8, 40 * i + 40) =~= fingerprints[l.1.index() as int]);
            }
        }
    }
}

proof fn lemma_assert_bytes_slots(asserts: Seq<(usize, u8, u64)>)
    ensures
        assert_bytes(asserts).len() == 13 * asserts.len(),
        forall|k: int|
            0 <= k < asserts.len() ==> assert_bytes(asserts)[13 * k] == (#[trigger] asserts[k]).1
                && assert_bytes(asserts).subrange(13 * k + 1, 13 * k + 5) == le_bytes(asserts[k].0 as u64, 4)
                && assert_bytes(asserts).subrange(13 * k + 5, 13 * k + 13) == le_bytes(asserts[k].2, 8),
    decreases asserts.len(),
{
    if asserts.len() > 0 {
        let prev = asserts.drop_last();
        lemma_assert_bytes_slots(prev);
        let a = asserts.last();
        assert(a == asserts[asserts.len() - 1]);
        let b0 = assert_bytes(prev);
        let tail = seq![a.1] + le_bytes(a.0 as u64, 4) + le_bytes(a.2, 8);
        let b = assert_bytes(asserts);
        assert(b == b0 + tail);
        assert forall|k: int| 0 <= k < asserts.len() implies b[13 * k] == (#[trigger] asserts[k]).1
            && b.subrange(13 * k + 1, 13 * k + 5) == le_bytes(asserts[k].0 as u64, 4)
            && b.subrange(13 * k + 5, 13 * k + 13) == le_bytes(asserts[k].2, 8) by {
            if k < prev.len() {
                assert(prev[k] == asserts[k]);
                assert(b[13 * k] == b0[13 * k]);
                assert(b.subrange(13 * k + 1, 13 * k + 5) =~= b0.subrange(13 * k + 1, 13 * k + 5));
                assert(b.subrange(13 * k + 5, 13 * k + 13) =~= b0.subrange(13 * k + 5, 13 * k + 13));
            } else {
                assert(b[13 * k] == tail[0]);
                assert(b.subrange(13 * k + 1, 13 * k + 5) =~= le_bytes(a.0 as u64, 4));
                assert(b.subrange(13 * k + 5, 13 * k + 13) =~= le_bytes(a.2, 8));
            }
        }
    }
}

/// What a basic block's fingerprint holds, for every block: its MAST root is the block's
/// digest, and it has a decorator root exactly when the block has a decorator or an assertion.
/// That root is the BLAKE3 hash of bytes laid out as `covers_block` says: every decorator's
/// fingerprint (op-indexed ones after their raw index) and then every assertion's opcode, index
/// and inner value, in order; so two blocks that differ in any assertion, or in any decorator,
/// hash different bytes.
pub proof fn lemma_block_fingerprint_hashes_all_parts(
    fingerprints: Seq<Seq<u8>>,
    op_batches: Seq<OpBatch>,
    asserts: Seq<(usize, u8, u64)>,
    before_enter: Seq<DecoratorId>,
    decorators: Seq<DecoratedOpLink>,
    after_exit: Seq<DecoratorId>,
    digest: Seq<u64>,
)
    requires
        forall|j: int| 0 <= j < fingerprints.len() ==> (#[trigger] fingerprints[j]).len() == 32,
        ids_below(before_enter, fingerprints.len()),
        ids_below(after_exit, fingerprints.len()),
        forall|i: int| 0 <= i < decorators.len() ==> (#[trigger] decorators[i]).1.index() < fingerprints.len(),
    ensures
        ({
            let fp = block_fingerprint(fingerprints, op_batches, asserts, before_enter, decorators, after_exit, digest);
            &&& fp.mast_root == digest
            &&& (fp.decorator_root is None) <==> (before_enter.len() == 0 && decorators.len() == 0
                && after_exit.len() == 0 && asserts.len() == 0)
            &&& fp.decorator_root is Some ==> exists|bytes: Seq<u8>|
                fp.decorator_root == Some(#[trigger] blake3_256(bytes)) && covers_block(
                    bytes,
                    fingerprints,
                    op_batches,
                    asserts,
                    before_enter,
                    decorators,
                    after_exit,
                )
        }),
{
    lemma_decorator_bytes_slots(fingerprints, before_enter);
    lemma_decorator_bytes_slots(fingerprints, after_exit);
    lemma_op_decorator_bytes_slots(fingerprints, op_batches, decorators);
    lemma_assert_bytes_slots(asserts);
    let b1 = decorator_bytes(fingerprints, before_enter);
    let b2 = op_decorator_bytes(fingerprints, pad_to_raw_prefix(op_batches), decorators);
    let b3 = decorator_bytes(fingerprints, after_exit);
    let b4 = assert_bytes(asserts);
    let bytes = b1 + b2 + b3 + b4;
    let nb = before_enter.len() as int;
    let nd = decorators.len() as int;
    let na = after_exit.len() as int;
    let o2 = 32 * nb;
    let o3 = o2 + 40 * nd;
    let o4 = o3 + 32 * na;
    assert forall|i: int| 0 <= i < nb implies bytes.subrange(32 * i, 32 * i + 32)
        == fingerprints[(#[trigger] before_enter[i]).index() as int] by {
        assert(bytes.subrange(32 * i, 32 * i + 32) =~= slot32(b1, i));
    }
    assert forall|i: int|
        0 <= i < nd implies bytes.subrange(o2 + 40 * i, o2 + 40 * i + 8) == le_bytes(
            raw_index_of(op_batches, (#[trigger] decorators[i]).0),
            8,
        ) && bytes.subrange(o2 + 40 * i + 8, o2 + 40 * i + 40) == fingerprints[decorators[i].1.index() as int] by {
        assert(bytes.subrange(o2 + 40 * i, o2 + 40 * i + 8) =~= b2.subrange(40 * i, 40 * i + 8));
        assert(bytes.subrange(o2 + 40 * i + 8, o2 + 40 * i + 40) =~= b2.subrange(40 * i + 8, 40 * i + 40));
    }
    assert forall|i: int| 0 <= i < na implies bytes.subrange(o3 + 32 * i, o3 + 32 * i + 32)
        == fingerprints[(#[trigger] after_exit[i]).index() as int] by {
        assert(bytes.subrange(o3 + 32 * i, o3 + 32 * i + 32) =~= slot32(b3, i));
    }
    assert forall|k: int|
        0 <= k < asserts.len() implies bytes[o4 + 13 * k] == (#[trigger] asserts[k]).1 && bytes.subrange(
            o4 + 13 * k + 1,
            o4 + 13 * k + 5,
        ) == le_bytes(asserts[k].0 as u64, 4) && bytes.subrange(o4 + 13 * k + 5, o4 + 13 * k + 13)
            == le_bytes(asserts[k].2, 8) by {
        assert(bytes[o4 + 13 * k] == b4[13 * k]);
        assert(bytes.subrange(o4 + 13 * k + 1, o4 + 13 * k + 5) =~= b4.subrange(13 * k + 1, 13 * k + 5));
        assert(bytes.subrange(o4 + 13 * k + 5, o4 + 13 * k + 13) =~= b4.subrange(13 * k + 5, 13 * k + 13));
    }
    assert(covers_block(bytes, fingerprints, op_batches, asserts, before_enter, decorators, after_exit));
}

} // verus!
