//! Merging forests: decorators deduplicated by fingerprint, then the nodes of each forest in
//! order (children before parents), each remapped onto the merged forest (its children through
//! the node id mapping, its decorators through the decorator id mapping) and deduplicated by
//! node fingerprint, then the roots of each forest mapped to their new ids.
use vstd::prelude::*;

use std::collections::BTreeMap;

use crate::ids::{DecoratorId, MastNodeId};
use crate::mast_forest::{
    MastForest, MastForestError, MastNode, MastNodeBuilder, MastNodeBuilderView, MastNodeView, Word,
    added, lemma_node_round_trip, max_nodes, node_built,
};
use crate::node_fingerprint::{
    DecoratorFingerprint, MastNodeFingerprint, MastNodeFingerprintView, fingerprint_from_parts,
    fingerprint_of, fingerprint_seqs, fingerprint_views, same_bytes, same_u64s,
};
use crate::root_map::{MastForestRootMap, all_roots_maps, lemma_roots_found, roots_mapped, spec_map_root};

verus! {

broadcast use vstd::std_specs::btree::group_btree_axioms, vstd::laws_cmp::group_laws_cmp;

/// The first decorator id of `ids` that `mapping` (keyed by decorator index) has no entry for.
pub open spec fn first_unmapped(ids: Seq<DecoratorId>, mapping: Map<u32, DecoratorId>) -> Option<
    DecoratorId,
>
    decreases ids.len(),
{
    if ids.len() == 0 {
        None
    } else {
        match first_unmapped(ids.drop_last(), mapping) {
            Some(d) => Some(d),
            None => if mapping.contains_key(ids.last().0) {
                None
            } else {
                Some(ids.last())
            },
        }
    }
}

/// The new ids of `ids` under `mapping`, in order.
pub open spec fn mapped_ids(ids: Seq<DecoratorId>, mapping: Map<u32, DecoratorId>) -> Seq<
    DecoratorId,
> {
    Seq::new(ids.len(), |i: int| mapping[ids[i].0])
}

/// The builder of `src` moved into a merged forest: its children through `node_map`, its
/// decorators (run before, then after) through `decorator_map`. The first decorator id that
/// `decorator_map` has no entry for refuses the node, reporting the mapping's size.
pub open spec fn remapped_builder(
    src: MastNodeView,
    node_map: Map<u32, MastNodeId>,
    decorator_map: Map<u32, DecoratorId>,
) -> Result<MastNodeBuilderView, MastForestError> {
    let missing = match first_unmapped(src.before_enter(), decorator_map) {
        Some(d) => Some(d),
        None => first_unmapped(src.after_exit(), decorator_map),
    };
    match missing {
        Some(d) => Err(MastForestError::DecoratorIdOverflow(d, decorator_map.len() as usize)),
        None => Ok(
            src.remapped_children(node_map).builder().with_decorators(
                mapped_ids(src.before_enter(), decorator_map),
                mapped_ids(src.after_exit(), decorator_map),
            ),
        ),
    }
}

/// Maps each decorator id of `ids` to its new id, refusing the first one without an entry.
fn map_decorators(ids: &[DecoratorId], decorator_map: &BTreeMap<u32, DecoratorId>) -> (r: Result<
    Vec<DecoratorId>,
    MastForestError,
>)
    ensures
        match first_unmapped(ids@, decorator_map@) {
            Some(d) => r == Err::<Vec<DecoratorId>, MastForestError>(
                MastForestError::DecoratorIdOverflow(d, decorator_map@.len() as usize),
            ),
            None => r is Ok && r->Ok_0@ == mapped_ids(ids@, decorator_map@),
        },
{
    let mut out: Vec<DecoratorId> = Vec::new();
    let mut i: usize = 0;
    while i < ids.len()
        invariant
            i <= ids@.len(),
            first_unmapped(ids@.take(i as int), decorator_map@) is None,
            out@ == mapped_ids(ids@.take(i as int), decorator_map@),
        decreases ids@.len() - i,
    {
        let id = ids[i];
        proof {
            assert(ids@.take(i + 1).drop_last() =~= ids@.take(i as int));
            assert(ids@.take(i + 1).last() == id);
        }
        match decorator_map.get(&id.0) {
            Some(new_id) => {
                out.push(*new_id);
                proof {
                    assert(out@ =~= mapped_ids(ids@.take(i + 1), decorator_map@));
                }
            },
            None => {
                proof {
                    lemma_first_unmapped_stays(ids@, decorator_map@, i + 1);
                }
                return Err(MastForestError::DecoratorIdOverflow(id, decorator_map.len()));
            },
        }
        i = i + 1;
    }
    proof {
        assert(ids@.take(ids@.len() as int) =~= ids@);
    }
    Ok(out)
}

/// Once a prefix of `ids` has an unmapped id, every longer prefix reports the same one.
proof fn lemma_first_unmapped_stays(ids: Seq<DecoratorId>, mapping: Map<u32, DecoratorId>, k: int)
    requires
        0 < k <= ids.len(),
        first_unmapped(ids.take(k), mapping) is Some,
    ensures
        first_unmapped(ids, mapping) == first_unmapped(ids.take(k), mapping),
    decreases ids.len() - k,
{
    if k < ids.len() {
        assert(ids.take(k + 1).drop_last() =~= ids.take(k));
        lemma_first_unmapped_stays(ids, mapping, k + 1);
    } else {
        assert(ids.take(k) =~= ids);
    }
}

/// Builds `src` anew for a merged forest: its children moved through `node_map` (an id
/// without an entry stays as it is), its decorators through `decorator_map`, in order.
pub fn build_with_remapped_children(
    src: &MastNode,
    node_map: &BTreeMap<u32, MastNodeId>,
    decorator_map: &BTreeMap<u32, DecoratorId>,
) -> (r: Result<MastNodeBuilder, MastForestError>)
    ensures
        match r {
            Ok(b) => remapped_builder(src@, node_map@, decorator_map@) == Ok::<
                MastNodeBuilderView,
                MastForestError,
            >(b@),
            Err(e) => remapped_builder(src@, node_map@, decorator_map@) == Err::<
                MastNodeBuilderView,
                MastForestError,
            >(e),
        },
{
    let before = match map_decorators(src.before_enter(), decorator_map) {
        Ok(v) => v,
        Err(e) => return Err(e),
    };
    let after = match map_decorators(src.after_exit(), decorator_map) {
        Ok(v) => v,
        Err(e) => return Err(e),
    };
    let moved = src.remap_children(node_map);
    Ok(moved.to_builder().with_decorators(before, after))
}

/// The position of the first fingerprint of `fps` equal to `fp`.
pub open spec fn find_fingerprint(fps: Seq<MastNodeFingerprintView>, fp: MastNodeFingerprintView) -> Option<nat>
    decreases fps.len(),
{
    if fps.len() == 0 {
        None
    } else {
        match find_fingerprint(fps.drop_last(), fp) {
            Some(j) => Some(j),
            None => if fps.last() == fp {
                Some((fps.len() - 1) as nat)
            } else {
                None
            },
        }
    }
}

/// Once a prefix of `fps` holds `fp`, every longer prefix finds the same position.
proof fn lemma_find_stays(fps: Seq<MastNodeFingerprintView>, fp: MastNodeFingerprintView, k: int)
    requires
        0 < k <= fps.len(),
        find_fingerprint(fps.take(k), fp) is Some,
    ensures
        find_fingerprint(fps, fp) == find_fingerprint(fps.take(k), fp),
    decreases fps.len() - k,
{
    if k < fps.len() {
        assert(fps.take(k + 1).drop_last() =~= fps.take(k));
        lemma_find_stays(fps, fp, k + 1);
    } else {
        assert(fps.take(k) =~= fps);
    }
}

/// Merging one node `src` of a forest into the merged nodes (with their fingerprints, and the
/// merged decorators' fingerprints): the node is remapped, built against the merged nodes and
/// fingerprinted; a merged node with the same fingerprint takes its place, otherwise it is
/// added. The result is the merged nodes and fingerprints after the step and the node's new id.
pub open spec fn merge_node_spec(
    nodes: Seq<MastNodeView>,
    fps: Seq<MastNodeFingerprintView>,
    dec_fps: Seq<Seq<u8>>,
    node_map: Map<u32, MastNodeId>,
    decorator_map: Map<u32, DecoratorId>,
    src: MastNodeView,
) -> Result<(Seq<MastNodeView>, Seq<MastNodeFingerprintView>, MastNodeId), MastForestError> {
    match remapped_builder(src, node_map, decorator_map) {
        Err(e) => Err(e),
        Ok(b) => match node_built(b, nodes) {
            Err(e) => Err(e),
            Ok(n) => match fingerprint_of(
                dec_fps,
                fps,
                n.before_enter(),
                n.after_exit(),
                n.children(),
                n.digest(),
            ) {
                Err(e) => Err(e),
                Ok(fp) => match find_fingerprint(fps, fp) {
                    Some(j) => Ok((nodes, fps, MastNodeId(j as u32))),
                    None => if nodes.len() < max_nodes() {
                        Ok((nodes.push(n), fps.push(fp), MastNodeId(nodes.len() as u32)))
                    } else {
                        Err(MastForestError::TooManyNodes)
                    },
                },
            },
        },
    }
}

/// Every id that `decorator_map` gives is below `n`.
pub open spec fn targets_below(decorator_map: Map<u32, DecoratorId>, n: nat) -> bool {
    forall|k: u32| decorator_map.contains_key(k) ==> (#[trigger] decorator_map[k]).index() < n
}

/// Merges one node into the merged forest, as `merge_node_spec` says; on an error nothing
/// changes.
fn merge_node(
    merged: &mut MastForest,
    fingerprints: &mut Vec<MastNodeFingerprint>,
    dec_fps: &[DecoratorFingerprint],
    node_map: &BTreeMap<u32, MastNodeId>,
    decorator_map: &BTreeMap<u32, DecoratorId>,
    src: &MastNode,
) -> (r: Result<MastNodeId, MastForestError>)
    requires
        old(fingerprints)@.len() == old(merged)@.len(),
        old(merged)@.len() <= max_nodes(),
        targets_below(decorator_map@, dec_fps@.len()),
    ensures
        final(fingerprints)@.len() == final(merged)@.len(),
        final(merged)@.len() <= max_nodes(),
        match merge_node_spec(
            old(merged)@,
            fingerprint_views(old(fingerprints)@),
            fingerprint_seqs(dec_fps@),
            node_map@,
            decorator_map@,
            src@,
        ) {
            Ok((nodes, fps, id)) => r == Ok::<MastNodeId, MastForestError>(id) && final(merged)@
                == nodes && fingerprint_views(final(fingerprints)@) == fps,
            Err(e) => r == Err::<MastNodeId, MastForestError>(e) && final(merged)@ == old(merged)@
                && final(fingerprints)@ == old(fingerprints)@,
        },
{
    let ghost fps0 = fingerprint_views(fingerprints@);
    let builder = match build_with_remapped_children(src, node_map, decorator_map) {
        Ok(b) => b,
        Err(e) => return Err(e),
    };
    let ghost bv = builder@;
    let node = match builder.build(merged) {
        Ok(n) => n,
        Err(e) => return Err(e),
    };
    let mut children: Vec<MastNodeId> = Vec::new();
    node.append_children_to(&mut children);
    proof {
        assert(children@ =~= node@.children());
        let b = remapped_builder(src@, node_map@, decorator_map@)->Ok_0;
        assert(node@.before_enter() == mapped_ids(src@.before_enter(), decorator_map@));
        assert(node@.after_exit() == mapped_ids(src@.after_exit(), decorator_map@));
        assert forall|i: int| 0 <= i < node@.before_enter().len() implies (
        #[trigger] node@.before_enter()[i]).index() < dec_fps@.len() by {
            assert(decorator_map@.contains_key(src@.before_enter()[i].0)) by {
                lemma_unmapped_none(src@.before_enter(), decorator_map@, i);
            }
        }
        assert forall|i: int| 0 <= i < node@.after_exit().len() implies (
        #[trigger] node@.after_exit()[i]).index() < dec_fps@.len() by {
            assert(decorator_map@.contains_key(src@.after_exit()[i].0)) by {
                lemma_unmapped_none(src@.after_exit(), decorator_map@, i);
            }
        }
    }
    let fp = match fingerprint_from_parts(
        dec_fps,
        fingerprints.as_slice(),
        node.before_enter(),
        node.after_exit(),
        children.as_slice(),
        node.digest(),
    ) {
        Ok(f) => f,
        Err(e) => return Err(e),
    };
    let ghost nodes_before = merged@;
    let ghost fps_before = fingerprints@;
    let mut j: usize = 0;
    while j < fingerprints.len()
        invariant
            j <= fingerprints@.len(),
            fps0 == fingerprint_views(fingerprints@),
            fingerprints@ == fps_before,
            merged@ == nodes_before,
            fingerprints@.len() == merged@.len(),
            merged@.len() <= max_nodes(),
            remapped_builder(src@, node_map@, decorator_map@) == Ok::<
                MastNodeBuilderView,
                MastForestError,
            >(bv),
            node_built(bv, nodes_before) == Ok::<MastNodeView, MastForestError>(node@),
            fingerprint_of(
                fingerprint_seqs(dec_fps@),
                fps0,
                node@.before_enter(),
                node@.after_exit(),
                node@.children(),
                node@.digest(),
            ) == Ok::<MastNodeFingerprintView, MastForestError>(fp@),
            find_fingerprint(fps0.take(j as int), fp@) is None,
        decreases fingerprints@.len() - j,
    {
        proof {
            assert(fps0.take(j + 1).drop_last() =~= fps0.take(j as int));
        }
        if fingerprints[j].same_as(&fp) {
            proof {
                assert(fps0[j as int] == fingerprints@[j as int]@);
                assert(fps0.take(j + 1).last() == fp@);
                assert(find_fingerprint(fps0.take(j + 1), fp@) == Some(j as nat));
                lemma_find_stays(fps0, fp@, j + 1);
                assert(find_fingerprint(fps0, fp@) == Some(j as nat));
            }
            return Ok(MastNodeId(j as u32));
        }
        j = j + 1;
    }
    proof {
        assert(fps0.take(fps0.len() as int) =~= fps0);
    }
    let ghost nodes0 = merged@;
    match merged.push_node(node) {
        Ok(id) => {
            fingerprints.push(fp);
            proof {
                assert(fingerprint_views(fingerprints@) =~= fps0.push(fp@));
            }
            Ok(id)
        },
        Err(e) => Err(e),
    }
}

/// With no unmapped id, every id has an entry.
proof fn lemma_unmapped_none(ids: Seq<DecoratorId>, mapping: Map<u32, DecoratorId>, i: int)
    requires
        first_unmapped(ids, mapping) is None,
        0 <= i < ids.len(),
    ensures
        mapping.contains_key(ids[i].0),
    decreases ids.len(),
{
    if i < ids.len() - 1 {
        lemma_unmapped_none(ids.drop_last(), mapping, i);
    }
}

/// The position of the first byte string of `fps` equal to `fp`.
pub open spec fn find_bytes(fps: Seq<Seq<u8>>, fp: Seq<u8>) -> Option<nat>
    decreases fps.len(),
{
    if fps.len() == 0 {
        None
    } else {
        match find_bytes(fps.drop_last(), fp) {
            Some(j) => Some(j),
            None => if fps.last() == fp {
                Some((fps.len() - 1) as nat)
            } else {
                None
            },
        }
    }
}

proof fn lemma_find_bytes_stays(fps: Seq<Seq<u8>>, fp: Seq<u8>, k: int)
    requires
        0 < k <= fps.len(),
        find_bytes(fps.take(k), fp) is Some,
    ensures
        find_bytes(fps, fp) == find_bytes(fps.take(k), fp),
    decreases fps.len() - k,
{
    if k < fps.len() {
        assert(fps.take(k + 1).drop_last() =~= fps.take(k));
        lemma_find_bytes_stays(fps, fp, k + 1);
    } else {
        assert(fps.take(k) =~= fps);
    }
}

/// Merging the decorators of one forest (by their fingerprints, in order) into the merged
/// decorators: a decorator whose fingerprint is already there takes that id, any other is added.
/// The result is the merged fingerprints and the forest's new decorator ids, by old id.
pub open spec fn merge_decorators_spec(acc: Seq<Seq<u8>>, fps: Seq<Seq<u8>>) -> Result<
    (Seq<Seq<u8>>, Seq<DecoratorId>),
    MastForestError,
>
    decreases fps.len(),
{
    if fps.len() == 0 {
        Ok((acc, Seq::empty()))
    } else {
        match merge_decorators_spec(acc, fps.drop_last()) {
            Err(e) => Err(e),
            Ok((a1, ids)) => match find_bytes(a1, fps.last()) {
                Some(j) => Ok((a1, ids.push(DecoratorId(j as u32)))),
                None => if a1.len() < u32::MAX {
                    Ok((a1.push(fps.last()), ids.push(DecoratorId(a1.len() as u32))))
                } else {
                    Err(MastForestError::TooManyDecorators)
                },
            },
        }
    }
}

/// The mapping that sends decorator index `k` to `ids[k]`.
pub open spec fn id_map(ids: Seq<DecoratorId>) -> Map<u32, DecoratorId> {
    Map::new(|k: u32| (k as int) < ids.len(), |k: u32| ids[k as int])
}

proof fn lemma_merge_decorators_err_stays(acc: Seq<Seq<u8>>, fps: Seq<Seq<u8>>, k: int)
    requires
        0 < k <= fps.len(),
        merge_decorators_spec(acc, fps.take(k)) is Err,
    ensures
        merge_decorators_spec(acc, fps) == merge_decorators_spec(acc, fps.take(k)),
    decreases fps.len() - k,
{
    if k < fps.len() {
        assert(fps.take(k + 1).drop_last() =~= fps.take(k));
        lemma_merge_decorators_err_stays(acc, fps, k + 1);
    } else {
        assert(fps.take(k) =~= fps);
    }
}

/// Merges the decorator fingerprints of one forest into `acc`, as `merge_decorators_spec`
/// says, and returns the forest's decorator id mapping.
fn merge_decorators(acc: &mut Vec<DecoratorFingerprint>, fps: &[DecoratorFingerprint]) -> (r:
    Result<BTreeMap<u32, DecoratorId>, MastForestError>)
    requires
        old(acc)@.len() <= u32::MAX,
        fps@.len() <= u32::MAX,
    ensures
        final(acc)@.len() <= u32::MAX,
        old(acc)@.len() <= final(acc)@.len(),
        match merge_decorators_spec(fingerprint_seqs(old(acc)@), fingerprint_seqs(fps@)) {
            Ok((a, ids)) => r is Ok && r->Ok_0@ == id_map(ids) && fingerprint_seqs(final(acc)@)
                == a && targets_below(r->Ok_0@, final(acc)@.len()),
            Err(e) => r == Err::<BTreeMap<u32, DecoratorId>, MastForestError>(e),
        },
{
    let ghost a0 = fingerprint_seqs(acc@);
    let ghost all = fingerprint_seqs(fps@);
    let ghost mut ids: Seq<DecoratorId> = Seq::empty();
    let mut map: BTreeMap<u32, DecoratorId> = BTreeMap::new();
    let mut i: usize = 0;
    proof {
        assert(all.take(0) =~= Seq::<Seq<u8>>::empty());
        assert(map@ =~= id_map(ids));
    }
    while i < fps.len()
        invariant
            i <= fps@.len(),
            fps@.len() <= u32::MAX,
            all == fingerprint_seqs(fps@),
            a0 == fingerprint_seqs(old(acc)@),
            acc@.len() <= u32::MAX,
            old(acc)@.len() <= acc@.len(),
            merge_decorators_spec(a0, all.take(i as int)) == Ok::<
                (Seq<Seq<u8>>, Seq<DecoratorId>),
                MastForestError,
            >((fingerprint_seqs(acc@), ids)),
            ids.len() == i,
            map@ == id_map(ids),
            targets_below(map@, acc@.len()),
        decreases fps@.len() - i,
    {
        let fp = fps[i];
        let ghost acc_seq = fingerprint_seqs(acc@);
        proof {
            assert(all.take(i + 1).drop_last() =~= all.take(i as int));
            assert(all.take(i + 1).last() == fp@);
        }
        let mut j: usize = 0;
        let mut found: Option<usize> = None;
        proof {
            assert(acc_seq.take(acc_seq.len() as int) =~= acc_seq);
        }
        while j < acc.len()
            invariant_except_break
                find_bytes(acc_seq.take(j as int), fp@) is None,
                found is None,
            invariant
                j <= acc@.len(),
                acc_seq == fingerprint_seqs(acc@),
                acc_seq.len() == acc@.len(),
                acc_seq.take(acc_seq.len() as int) == acc_seq,
            ensures
                match found {
                    Some(k) => k < acc@.len() && find_bytes(acc_seq, fp@) == Some(k as nat),
                    None => find_bytes(acc_seq, fp@) is None,
                },
            decreases acc@.len() - j,
        {
            proof {
                assert(acc_seq.take(j + 1).drop_last() =~= acc_seq.take(j as int));
            }
            if same_bytes(&acc[j], &fp) {
                proof {
                    assert(acc_seq.take(j + 1).last() == fp@);
                    lemma_find_bytes_stays(acc_seq, fp@, j + 1);
                }
                found = Some(j);
                break;
            }
            j = j + 1;
        }
        let new_id = match found {
            Some(k) => DecoratorId(k as u32),
            None => {
                if acc.len() >= u32::MAX as usize {
                    proof {
                        lemma_merge_decorators_err_stays(a0, all, i + 1);
                    }
                    return Err(MastForestError::TooManyDecorators);
                }
                let id = DecoratorId(acc.len() as u32);
                acc.push(fp);
                proof {
                    assert(fingerprint_seqs(acc@) =~= acc_seq.push(fp@));
                }
                id
            },
        };
        map.insert(i as u32, new_id);
        proof {
            ids = ids.push(new_id);
            assert(map@ =~= id_map(ids));
        }
        i = i + 1;
    }
    proof {
        assert(all.take(fps@.len() as int) =~= all);
    }
    Ok(map)
}


/// Merging the decorators of every forest, in order: the merged decorators' fingerprints and,
/// for each forest, the new id of each of its decorators.
pub open spec fn merge_all_decorators_spec(dec_fps: Seq<Seq<Seq<u8>>>) -> Result<
    (Seq<Seq<u8>>, Seq<Seq<DecoratorId>>),
    MastForestError,
>
    decreases dec_fps.len(),
{
    if dec_fps.len() == 0 {
        Ok((Seq::empty(), Seq::empty()))
    } else {
        match merge_all_decorators_spec(dec_fps.drop_last()) {
            Err(e) => Err(e),
            Ok((acc, idss)) => match merge_decorators_spec(acc, dec_fps.last()) {
                Err(e) => Err(e),
                Ok((a2, ids)) => Ok((a2, idss.push(ids))),
            },
        }
    }
}

proof fn lemma_merge_all_decorators_err_stays(dec_fps: Seq<Seq<Seq<u8>>>, k: int)
    requires
        0 < k <= dec_fps.len(),
        merge_all_decorators_spec(dec_fps.take(k)) is Err,
    ensures
        merge_all_decorators_spec(dec_fps) == merge_all_decorators_spec(dec_fps.take(k)),
    decreases dec_fps.len() - k,
{
    if k < dec_fps.len() {
        assert(dec_fps.take(k + 1).drop_last() =~= dec_fps.take(k));
        lemma_merge_all_decorators_err_stays(dec_fps, k + 1);
    } else {
        assert(dec_fps.take(k) =~= dec_fps);
    }
}

/// The decorator fingerprints of each forest.
pub open spec fn all_fingerprint_seqs(dec_fps: Seq<Vec<DecoratorFingerprint>>) -> Seq<Seq<Seq<u8>>> {
    Seq::new(dec_fps.len(), |f: int| fingerprint_seqs(dec_fps[f]@))
}

/// Merges the decorators of every forest, as `merge_all_decorators_spec` says, and returns the
/// merged fingerprints and each forest's decorator id mapping.
fn merge_all_decorators(decorator_fingerprints: &[Vec<DecoratorFingerprint>]) -> (r: Result<
    (Vec<DecoratorFingerprint>, Vec<BTreeMap<u32, DecoratorId>>),
    MastForestError,
>)
    requires
        forall|f: int|
            0 <= f < decorator_fingerprints@.len() ==> (#[trigger] decorator_fingerprints@[f])@.len()
                <= u32::MAX,
    ensures
        match merge_all_decorators_spec(all_fingerprint_seqs(decorator_fingerprints@)) {
            Ok((decs, idss)) => r is Ok && fingerprint_seqs(r->Ok_0.0@) == decs && r->Ok_0.0@.len()
                <= u32::MAX && r->Ok_0.1@.len() == idss.len() && idss.len()
                == decorator_fingerprints@.len() && forall|f: int|
                0 <= f < idss.len() ==> (#[trigger] r->Ok_0.1@[f])@ == id_map(idss[f])
                    && targets_below(r->Ok_0.1@[f]@, r->Ok_0.0@.len()),
            Err(e) => r is Err && r->Err_0 == e,
        },
{
    let ghost all = all_fingerprint_seqs(decorator_fingerprints@);
    let mut acc: Vec<DecoratorFingerprint> = Vec::new();
    let mut maps: Vec<BTreeMap<u32, DecoratorId>> = Vec::new();
    let ghost mut idss: Seq<Seq<DecoratorId>> = Seq::empty();
    let mut f: usize = 0;
    proof {
        assert(all.take(0) =~= Seq::<Seq<Seq<u8>>>::empty());
        assert(fingerprint_seqs(acc@) =~= Seq::<Seq<u8>>::empty());
    }
    while f < decorator_fingerprints.len()
        invariant
            f <= decorator_fingerprints@.len(),
            all == all_fingerprint_seqs(decorator_fingerprints@),
            forall|g: int|
                0 <= g < decorator_fingerprints@.len() ==> (#[trigger] decorator_fingerprints@[g])@.len()
                    <= u32::MAX,
            acc@.len() <= u32::MAX,
            merge_all_decorators_spec(all.take(f as int)) == Ok::<
                (Seq<Seq<u8>>, Seq<Seq<DecoratorId>>),
                MastForestError,
            >((fingerprint_seqs(acc@), idss)),
            idss.len() == f,
            maps@.len() == f,
            forall|g: int|
                0 <= g < f ==> (#[trigger] maps@[g])@ == id_map(idss[g]) && targets_below(
                    maps@[g]@,
                    acc@.len(),
                ),
        decreases decorator_fingerprints@.len() - f,
    {
        let fps = decorator_fingerprints[f].as_slice();
        let ghost acc_before = acc@;
        proof {
            assert(all.take(f + 1).drop_last() =~= all.take(f as int));
            assert(all.take(f + 1).last() == fingerprint_seqs(fps@));
        }
        match merge_decorators(&mut acc, fps) {
            Ok(m) => {
                let ghost ids = merge_decorators_spec(fingerprint_seqs(acc_before), fingerprint_seqs(fps@))->Ok_0.1;
                proof {
                    assert forall|g: int| 0 <= g < f implies targets_below(#[trigger] maps@[g]@, acc@.len()) by {
                        assert forall|k: u32| maps@[g]@.contains_key(k) implies (#[trigger] maps@[g]@[k]).index() < acc@.len() by {
                            assert(maps@[g]@[k].index() < acc_before.len());
                        }
                    }
                }
                maps.push(m);
                proof {
                    idss = idss.push(ids);
                }
            },
            Err(e) => {
                proof {
                    lemma_merge_all_decorators_err_stays(all, f + 1);
                }
                return Err(e);
            },
        }
        f = f + 1;
    }
    proof {
        assert(all.take(f as int) =~= all);
    }
    Ok((acc, maps))
}

/// The nodes of each forest.
pub open spec fn forest_views(forests: Seq<MastForest>) -> Seq<Seq<MastNodeView>> {
    Seq::new(forests.len(), |f: int| forests[f]@)
}

/// `roots` with `root` added at the end, unless it is already there.
pub open spec fn add_root(roots: Seq<MastNodeId>, root: MastNodeId) -> Seq<MastNodeId> {
    if roots.contains(root) {
        roots
    } else {
        roots.push(root)
    }
}

/// The merged roots after the roots `forest_roots` of one forest, mapped through its node id
/// mapping, are added in order to `acc`.
pub open spec fn merged_roots(
    acc: Seq<MastNodeId>,
    forest_roots: Seq<MastNodeId>,
    node_map: Map<u32, MastNodeId>,
) -> Seq<MastNodeId>
    decreases forest_roots.len(),
{
    if forest_roots.len() == 0 {
        acc
    } else {
        add_root(
            merged_roots(acc, forest_roots.drop_last(), node_map),
            node_map[forest_roots.last().0],
        )
    }
}

/// The merged roots of every forest, in order, each mapped through its forest's node id mapping.
pub open spec fn all_merged_roots(
    roots: Seq<Seq<MastNodeId>>,
    node_maps: Seq<Map<u32, MastNodeId>>,
) -> Seq<MastNodeId>
    decreases roots.len(),
{
    if roots.len() == 0 {
        Seq::empty()
    } else {
        merged_roots(
            all_merged_roots(roots.drop_last(), node_maps),
            roots.last(),
            node_maps[roots.len() - 1],
        )
    }
}

/// The procedure roots of each forest.
pub open spec fn root_seqs(roots: Seq<Vec<MastNodeId>>) -> Seq<Seq<MastNodeId>> {
    Seq::new(roots.len(), |f: int| roots[f]@)
}

/// Every root of forest `f` names one of its nodes.
pub open spec fn roots_in_forests(roots: Seq<Seq<MastNodeId>>, forests: Seq<Seq<MastNodeView>>) -> bool {
    forall|f: int, i: int|
        0 <= f < roots.len() && 0 <= i < roots[f].len() ==> (#[trigger] roots[f][i]).index()
            < forests[f].len()
}

/// Adds the roots of every forest, mapped to their new ids, to the merged roots.
fn merge_all_roots(
    procedure_roots: &Vec<Vec<MastNodeId>>,
    node_maps: &Vec<BTreeMap<u32, MastNodeId>>,
    Ghost(maps): Ghost<Seq<Map<u32, MastNodeId>>>,
    Ghost(lens): Ghost<Seq<nat>>,
) -> (r: Vec<MastNodeId>)
    requires
        node_maps@.len() == procedure_roots@.len(),
        maps.len() == procedure_roots@.len(),
        lens.len() == procedure_roots@.len(),
        forall|f: int| 0 <= f < maps.len() ==> (#[trigger] node_maps@[f])@ == maps[f],
        forall|f: int, k: u32| 0 <= f < maps.len() && k < lens[f] ==> #[trigger] maps[f].contains_key(k),
        forall|f: int, i: int|
            0 <= f < procedure_roots@.len() && 0 <= i < procedure_roots@[f]@.len() ==> (
            #[trigger] procedure_roots@[f]@[i]).index() < lens[f],
    ensures
        r@ == all_merged_roots(root_seqs(procedure_roots@), maps),
{
    let ghost all = root_seqs(procedure_roots@);
    let mut roots: Vec<MastNodeId> = Vec::new();
    let mut f: usize = 0;
    proof {
        assert(all.take(0) =~= Seq::<Seq<MastNodeId>>::empty());
    }
    while f < procedure_roots.len()
        invariant
            f <= procedure_roots@.len(),
            all == root_seqs(procedure_roots@),
            node_maps@.len() == procedure_roots@.len(),
            maps.len() == procedure_roots@.len(),
            lens.len() == procedure_roots@.len(),
            forall|g: int| 0 <= g < maps.len() ==> (#[trigger] node_maps@[g])@ == maps[g],
            forall|g: int, k: u32| 0 <= g < maps.len() && k < lens[g] ==> #[trigger] maps[g].contains_key(k),
            forall|g: int, i: int|
                0 <= g < procedure_roots@.len() && 0 <= i < procedure_roots@[g]@.len() ==> (
                #[trigger] procedure_roots@[g]@[i]).index() < lens[g],
            roots@ == all_merged_roots(all.take(f as int), maps),
        decreases procedure_roots@.len() - f,
    {
        let forest_roots = &procedure_roots[f];
        let node_map = &node_maps[f];
        let ghost fr = forest_roots@;
        let ghost m = maps[f as int];
        let ghost start = roots@;
        proof {
            assert(node_map@ == m);
        }
        let mut j: usize = 0;
        while j < forest_roots.len()
            invariant
                j <= fr.len(),
                fr == forest_roots@,
                node_map@ == m,
                forall|i: int| 0 <= i < fr.len() ==> m.contains_key(#[trigger] fr[i].0),
                roots@ == merged_roots(start, fr.take(j as int), m),
            decreases fr.len() - j,
        {
            let root = forest_roots[j];
            proof {
                assert(fr.take(j + 1).drop_last() =~= fr.take(j as int));
                assert(fr.take(j + 1).last() == root);
                assert(m.contains_key(fr[j as int].0));
            }
            let new_root = match node_map.get(&root.0) {
                Some(id) => *id,
                None => vstd::pervasive::unreached(),
            };
            let ghost before = roots@;
            let mut k: usize = 0;
            let mut present = false;
            while k < roots.len()
                invariant_except_break
                    !present,
                    forall|i: int| 0 <= i < k ==> roots@[i] != new_root,
                invariant
                    k <= roots@.len(),
                    roots@ == before,
                ensures
                    present == before.contains(new_root),
                decreases roots@.len() - k,
            {
                if roots[k].0 == new_root.0 {
                    present = true;
                    proof {
                        assert(before[k as int] == new_root);
                    }
                    break;
                }
                k = k + 1;
            }
            if !present {
                roots.push(new_root);
            }
            proof {
                assert(roots@ == add_root(before, new_root));
            }
            j = j + 1;
        }
        proof {
            assert(fr.take(fr.len() as int) =~= fr);
            assert(all.take(f + 1).drop_last() =~= all.take(f as int));
            assert(all.take(f + 1).last() == fr);
            assert(all.take(f + 1).len() - 1 == f);
        }
        f = f + 1;
    }
    proof {
        assert(all.take(f as int) =~= all);
    }
    roots
}

/// The node id mapping `node_map` of a forest with `n` nodes, as a list by old node index.
pub open spec fn id_vec(node_map: Map<u32, MastNodeId>, n: nat) -> Seq<Option<MastNodeId>> {
    Seq::new(
        n,
        |k: int|
            if node_map.contains_key(k as u32) {
                Some(node_map[k as u32])
            } else {
                None
            },
    )
}

/// What a merge gives: the merged nodes, the merged decorators' fingerprints, the merged roots,
/// for each forest the new id of each of its roots, the merged advice map and the merged error
/// codes.
pub ghost struct MergedView {
    pub nodes: Seq<MastNodeView>,
    pub decorators: Seq<Seq<u8>>,
    pub roots: Seq<MastNodeId>,
    pub root_maps: Seq<Map<u32, MastNodeId>>,
    pub advice: Seq<(Word, Seq<u64>)>,
    pub error_codes: Map<u64, String>,
}

/// What merging the forests `forests` (their nodes), with the decorator fingerprints `dec_fps`,
/// the procedure roots `roots`, the advice maps `advice` and the error codes `codes` of each,
/// gives.
///
/// Advice maps are merged first; a key met again with other values refuses the merge. Then
/// decorators, forest by forest, a decorator whose fingerprint is already merged taking that
/// decorator's id. Error codes are merged, a later message for a code replacing an earlier one.
/// Then the nodes are merged (`merge_all_nodes_spec`): every node after its children, each
/// remapped onto the merged forest and deduplicated by fingerprint, and an external node whose
/// digest is that of a non-external node of some forest replaced by that node. Last, every root
/// is mapped to its new id and added unless already a root.
pub open spec fn merge_forests_spec(
    forests: Seq<Seq<MastNodeView>>,
    dec_fps: Seq<Seq<Seq<u8>>>,
    roots: Seq<Seq<MastNodeId>>,
    advice: Seq<Seq<(Word, Seq<u64>)>>,
    codes: Seq<Seq<(u64, String)>>,
) -> Result<MergedView, MastForestError> {
    match merge_all_advice_spec(advice) {
        Err(e) => Err(e),
        Ok(adv) => match merge_all_decorators_spec(dec_fps) {
            Err(e) => Err(e),
            Ok((decs, idss)) => match merge_all_nodes_spec(forests, decs, idss) {
                Err(e) => Err(e),
                Ok(st) => Ok(
                    MergedView {
                        nodes: st.nodes,
                        decorators: decs,
                        roots: all_merged_roots(roots, st.maps),
                        root_maps: all_roots_maps(
                            Seq::new(forests.len(), |f: int| id_vec(st.maps[f], forests[f].len())),
                            roots,
                        ),
                        advice: adv,
                        error_codes: merge_error_codes_spec(codes),
                    },
                ),
            },
        },
    }
}

/// The result of merging forests: the merged forest, the fingerprints of its decorators, its
/// procedure roots, where each input forest's roots went, its advice map and its error codes.
pub struct MergedForests {
    pub forest: MastForest,
    pub decorator_fingerprints: Vec<DecoratorFingerprint>,
    pub roots: Vec<MastNodeId>,
    pub root_map: MastForestRootMap,
    pub advice_map: Vec<(Word, Vec<u64>)>,
    pub error_codes: BTreeMap<u64, String>,
}

/// Builds the node id mapping of each forest as a list by old node index.
fn id_vecs(node_maps: &Vec<BTreeMap<u32, MastNodeId>>, lens: &Vec<usize>) -> (r: Vec<
    Vec<Option<MastNodeId>>,
>)
    requires
        lens@.len() == node_maps@.len(),
        forall|f: int| 0 <= f < lens@.len() ==> #[trigger] lens@[f] <= max_nodes(),
    ensures
        r@.len() == node_maps@.len(),
        forall|f: int|
            0 <= f < node_maps@.len() ==> (#[trigger] r@[f])@ == id_vec(
                node_maps@[f]@,
                lens@[f] as nat,
            ),
{
    let mut out: Vec<Vec<Option<MastNodeId>>> = Vec::new();
    let mut f: usize = 0;
    while f < node_maps.len()
        invariant
            f <= node_maps@.len(),
            lens@.len() == node_maps@.len(),
            forall|g: int| 0 <= g < lens@.len() ==> #[trigger] lens@[g] <= max_nodes(),
            out@.len() == f,
            forall|g: int|
                0 <= g < f ==> (#[trigger] out@[g])@ == id_vec(node_maps@[g]@, lens@[g] as nat),
        decreases node_maps@.len() - f,
    {
        let n = lens[f];
        let map = &node_maps[f];
        proof {
            assert(lens@[f as int] <= max_nodes());
        }
        let mut v: Vec<Option<MastNodeId>> = Vec::new();
        let mut k: usize = 0;
        while k < n
            invariant
                k <= n,
                n <= max_nodes(),
                v@.len() == k,
                forall|i: int| 0 <= i < k ==> #[trigger] v@[i] == id_vec(map@, n as nat)[i],
            decreases n - k,
        {
            let e = match map.get(&(k as u32)) {
                Some(id) => Some(*id),
                None => None,
            };
            v.push(e);
            k = k + 1;
        }
        proof {
            assert(v@ =~= id_vec(map@, n as nat));
        }
        out.push(v);
        f = f + 1;
    }
    out
}

impl MastForest {
    /// Merges `forests` into one forest, as `merge_forests_spec` says. `decorator_fingerprints[f]`
    /// are the fingerprints of forest `f`'s decorators, by decorator id, `procedure_roots[f]` its
    /// procedure roots, `advice_maps[f]` its advice map entries and `error_codes[f]` its error
    /// codes. Nodes are deduplicated by fingerprint, decorators by their fingerprint, external
    /// nodes are replaced by the nodes of the same digest, and the returned root map gives, for
    /// each forest, the new id of each of its roots.
    pub fn merge(
        forests: &[MastForest],
        decorator_fingerprints: &[Vec<DecoratorFingerprint>],
        procedure_roots: Vec<Vec<MastNodeId>>,
        advice_maps: &[Vec<(Word, Vec<u64>)>],
        error_codes: &[Vec<(u64, String)>],
    ) -> (r: Result<MergedForests, MastForestError>)
        requires
            decorator_fingerprints@.len() == forests@.len(),
            procedure_roots@.len() == forests@.len(),
            advice_maps@.len() == forests@.len(),
            error_codes@.len() == forests@.len(),
            forall|f: int|
                0 <= f < forests@.len() ==> (#[trigger] forests@[f])@.len() <= max_nodes(),
            forall|f: int|
                0 <= f < forests@.len() ==> (#[trigger] decorator_fingerprints@[f])@.len() <= u32::MAX,
            roots_in_forests(root_seqs(procedure_roots@), forest_views(forests@)),
        ensures
            match merge_forests_spec(
                forest_views(forests@),
                all_fingerprint_seqs(decorator_fingerprints@),
                root_seqs(procedure_roots@),
                all_advice_views(advice_maps@),
                all_code_views(error_codes@),
            ) {
                Ok(m) => r is Ok && r->Ok_0.forest@ == m.nodes && fingerprint_seqs(
                    r->Ok_0.decorator_fingerprints@,
                ) == m.decorators && r->Ok_0.roots@ == m.roots && r->Ok_0.root_map@
                    == m.root_maps && advice_view(r->Ok_0.advice_map@) == m.advice
                    && r->Ok_0.error_codes@ == m.error_codes,
                Err(e) => r is Err && r->Err_0 == e,
            },
    {
        let ghost fv = forest_views(forests@);
        let ghost rs = root_seqs(procedure_roots@);
        let advice_map = match merge_advice_maps(advice_maps) {
            Ok(a) => a,
            Err(e) => return Err(e),
        };
        let (decs, decorator_maps) = match merge_all_decorators(decorator_fingerprints) {
            Ok(x) => x,
            Err(e) => return Err(e),
        };
        let ghost idss = merge_all_decorators_spec(all_fingerprint_seqs(decorator_fingerprints@))->Ok_0.1;
        let (merged, node_maps) = match merge_all_nodes(forests, decs.as_slice(), &decorator_maps, Ghost(idss)) {
            Ok(x) => x,
            Err(e) => return Err(e),
        };
        let ghost d = fingerprint_seqs(decs@);
        let ghost maps = merge_all_nodes_spec(fv, d, idss)->Ok_0.maps;
        let mut lens: Vec<usize> = Vec::new();
        let mut f: usize = 0;
        while f < forests.len()
            invariant
                f <= forests@.len(),
                lens@.len() == f,
                forall|g: int| 0 <= g < f ==> #[trigger] lens@[g] == forests@[g]@.len(),
            decreases forests@.len() - f,
        {
            lens.push(forests[f].num_nodes());
            f = f + 1;
        }
        let ghost lens_nat = Seq::new(lens@.len(), |g: int| lens@[g] as nat);
        proof {
            lemma_merge_all_nodes_maps_all(fv, d, idss);
            assert forall|g: int| 0 <= g < maps.len() implies (#[trigger] node_maps@[g])@ == maps[g] by {
                assert(map_views(node_maps@)[g] == node_maps@[g]@);
            }
            assert forall|g: int, k: u32| 0 <= g < maps.len() && k < lens_nat[g] implies #[trigger] maps[g].contains_key(k) by {
                assert(lens_nat[g] == fv[g].len());
            }
            assert forall|g: int, i: int|
                0 <= g < procedure_roots@.len() && 0 <= i < procedure_roots@[g]@.len() implies (
                #[trigger] procedure_roots@[g]@[i]).index() < lens_nat[g] by {
                assert(rs[g][i] == procedure_roots@[g]@[i]);
            }
        }
        let roots = merge_all_roots(&procedure_roots, &node_maps, Ghost(maps), Ghost(lens_nat));
        let ids = id_vecs(&node_maps, &lens);
        proof {
            assert forall|g: int| 0 <= g < procedure_roots@.len() implies roots_mapped(
                #[trigger] ids@[g]@,
                procedure_roots@[g]@,
            ) by {
                assert forall|i: int| 0 <= i < procedure_roots@[g]@.len() implies (#[trigger] procedure_roots@[g]@[i]).index() < ids@[g]@.len() && ids@[g]@[procedure_roots@[g]@[i].index() as int] is Some by {
                    assert(rs[g][i] == procedure_roots@[g]@[i]);
                    assert(maps[g].contains_key(procedure_roots@[g]@[i].0));
                }
            }
        }
        let root_map = MastForestRootMap::from_node_id_map(ids, procedure_roots);
        proof {
            assert(Seq::new(ids@.len(), |g: int| ids@[g]@) =~= Seq::new(fv.len(), |g: int| id_vec(maps[g], fv[g].len())));
            assert(Seq::new(root_map@.len(), |g: int| root_map@[g]) == root_map@);
        }
        let codes = merge_error_codes(error_codes);
        Ok(
            MergedForests {
                forest: merged,
                decorator_fingerprints: decs,
                roots,
                root_map,
                advice_map,
                error_codes: codes,
            },
        )
    }
}

/// No two entries of `fps` are equal.
pub open spec fn all_distinct(fps: Seq<MastNodeFingerprintView>) -> bool {
    forall|i: int, j: int| 0 <= i < j < fps.len() ==> fps[i] != fps[j]
}

proof fn lemma_find_none(fps: Seq<MastNodeFingerprintView>, fp: MastNodeFingerprintView)
    requires
        find_fingerprint(fps, fp) is None,
    ensures
        forall|i: int| 0 <= i < fps.len() ==> fps[i] != fp,
    decreases fps.len(),
{
    if fps.len() > 0 {
        lemma_find_none(fps.drop_last(), fp);
        assert forall|i: int| 0 <= i < fps.len() implies fps[i] != fp by {
            if i < fps.len() - 1 {
                assert(fps.drop_last()[i] == fps[i]);
            }
        }
    }
}

/// No two entries of `fps` are equal.
pub open spec fn all_distinct_bytes(fps: Seq<Seq<u8>>) -> bool {
    forall|i: int, j: int| 0 <= i < j < fps.len() ==> fps[i] != fps[j]
}

proof fn lemma_find_bytes_none(fps: Seq<Seq<u8>>, fp: Seq<u8>)
    requires
        find_bytes(fps, fp) is None,
    ensures
        forall|i: int| 0 <= i < fps.len() ==> fps[i] != fp,
    decreases fps.len(),
{
    if fps.len() > 0 {
        lemma_find_bytes_none(fps.drop_last(), fp);
        assert forall|i: int| 0 <= i < fps.len() implies fps[i] != fp by {
            if i < fps.len() - 1 {
                assert(fps.drop_last()[i] == fps[i]);
            }
        }
    }
}

proof fn lemma_merge_decorators_distinct(acc: Seq<Seq<u8>>, fps: Seq<Seq<u8>>)
    requires
        all_distinct_bytes(acc),
        merge_decorators_spec(acc, fps) is Ok,
    ensures
        all_distinct_bytes(merge_decorators_spec(acc, fps)->Ok_0.0),
    decreases fps.len(),
{
    if fps.len() > 0 {
        lemma_merge_decorators_distinct(acc, fps.drop_last());
        let (a1, ids) = merge_decorators_spec(acc, fps.drop_last())->Ok_0;
        if find_bytes(a1, fps.last()) is None {
            lemma_find_bytes_none(a1, fps.last());
            let a2 = a1.push(fps.last());
            assert forall|i: int, j: int| 0 <= i < j < a2.len() implies a2[i] != a2[j] by {
                assert(a2[i] == a1[i]);
                if j < a1.len() {
                    assert(a2[j] == a1[j]);
                }
            }
        }
    }
}

/// Merging keeps the merged decorators free of duplicates: no two merged decorators have the
/// same fingerprint.
pub proof fn lemma_merged_decorators_distinct(dec_fps: Seq<Seq<Seq<u8>>>)
    requires
        merge_all_decorators_spec(dec_fps) is Ok,
    ensures
        all_distinct_bytes(merge_all_decorators_spec(dec_fps)->Ok_0.0),
    decreases dec_fps.len(),
{
    if dec_fps.len() > 0 {
        lemma_merged_decorators_distinct(dec_fps.drop_last());
        let (acc, idss) = merge_all_decorators_spec(dec_fps.drop_last())->Ok_0;
        lemma_merge_decorators_distinct(acc, dec_fps.last());
    }
}

/// The first node of `nodes` that is not external and has digest `d`.
pub open spec fn first_real(nodes: Seq<MastNodeView>, d: Seq<u64>) -> Option<nat>
    decreases nodes.len(),
{
    if nodes.len() == 0 {
        None
    } else {
        match first_real(nodes.drop_last(), d) {
            Some(j) => Some(j),
            None => if !(nodes.last() is External) && nodes.last().digest() == d {
                Some((nodes.len() - 1) as nat)
            } else {
                None
            },
        }
    }
}

/// The node that an external node of digest `d` is replaced by: the first node, forest by
/// forest and in each forest by index, that is not external and has digest `d`.
pub open spec fn replacement_of(forests: Seq<Seq<MastNodeView>>, d: Seq<u64>) -> Option<(nat, nat)>
    decreases forests.len(),
{
    if forests.len() == 0 {
        None
    } else {
        match replacement_of(forests.drop_last(), d) {
            Some(p) => Some(p),
            None => match first_real(forests.last(), d) {
                Some(j) => Some(((forests.len() - 1) as nat, j)),
                None => None,
            },
        }
    }
}

proof fn lemma_first_real_stays(nodes: Seq<MastNodeView>, d: Seq<u64>, k: int)
    requires
        0 < k <= nodes.len(),
        first_real(nodes.take(k), d) is Some,
    ensures
        first_real(nodes, d) == first_real(nodes.take(k), d),
    decreases nodes.len() - k,
{
    if k < nodes.len() {
        assert(nodes.take(k + 1).drop_last() =~= nodes.take(k));
        lemma_first_real_stays(nodes, d, k + 1);
    } else {
        assert(nodes.take(k) =~= nodes);
    }
}

proof fn lemma_replacement_stays(forests: Seq<Seq<MastNodeView>>, d: Seq<u64>, k: int)
    requires
        0 < k <= forests.len(),
        replacement_of(forests.take(k), d) is Some,
    ensures
        replacement_of(forests, d) == replacement_of(forests.take(k), d),
    decreases forests.len() - k,
{
    if k < forests.len() {
        assert(forests.take(k + 1).drop_last() =~= forests.take(k));
        lemma_replacement_stays(forests, d, k + 1);
    } else {
        assert(forests.take(k) =~= forests);
    }
}

/// Finds the node that replaces an external node of digest `d`, as `replacement_of` says.
fn find_replacement(forests: &[MastForest], d: &Word) -> (r: Option<(usize, usize)>)
    requires
        forall|f: int|
            0 <= f < forests@.len() ==> (#[trigger] forests@[f])@.len() <= max_nodes(),
    ensures
        match replacement_of(forest_views(forests@), d@) {
            Some((g, j)) => r == Some((g as usize, j as usize)) && g < forests@.len() && j
                < forests@[g as int]@.len(),
            None => r is None,
        },
{
    let ghost fv = forest_views(forests@);
    let mut g: usize = 0;
    proof {
        assert(fv.take(0) =~= Seq::<Seq<MastNodeView>>::empty());
    }
    while g < forests.len()
        invariant
            g <= forests@.len(),
            fv == forest_views(forests@),
            replacement_of(fv.take(g as int), d@) is None,
            forall|f: int|
                0 <= f < forests@.len() ==> (#[trigger] forests@[f])@.len() <= max_nodes(),
        decreases forests@.len() - g,
    {
        let forest = &forests[g];
        let n = forest.num_nodes();
        let ghost nodes = forest@;
        proof {
            assert(forests@[g as int]@.len() <= max_nodes());
            assert(fv[g as int] == nodes);
            assert(fv.take(g + 1).drop_last() =~= fv.take(g as int));
            assert(fv.take(g + 1).last() == nodes);
            assert(nodes.take(0) =~= Seq::<MastNodeView>::empty());
        }
        let mut j: usize = 0;
        while j < n
            invariant
                j <= n,
                n == nodes.len(),
                n <= max_nodes(),
                nodes == forest@,
                g < forests@.len(),
                fv == forest_views(forests@),
                fv[g as int] == nodes,
                fv.take(g + 1).drop_last() == fv.take(g as int),
                fv.take(g + 1).last() == nodes,
                replacement_of(fv.take(g as int), d@) is None,
                first_real(nodes.take(j as int), d@) is None,
            decreases n - j,
        {
            let node = match forest.get_node_by_id(MastNodeId(j as u32)) {
                Some(x) => x,
                None => vstd::pervasive::unreached(),
            };
            proof {
                assert(nodes.take(j + 1).drop_last() =~= nodes.take(j as int));
                assert(nodes.take(j + 1).last() == node@);
            }
            if !node.is_external() {
                let nd = node.digest();
                if same_u64s(&nd, d) {
                    proof {
                        lemma_first_real_stays(nodes, d@, j + 1);
                        lemma_replacement_stays(fv, d@, g + 1);
                    }
                    return Some((g, j));
                }
            }
            j = j + 1;
        }
        proof {
            assert(nodes.take(n as int) =~= nodes);
        }
        g = g + 1;
    }
    proof {
        assert(fv.take(g as int) =~= fv);
    }
    None
}

/// Every child of `node` has an entry in `m`.
pub open spec fn children_mapped(node: MastNodeView, m: Map<u32, MastNodeId>) -> bool {
    forall|c: int| 0 <= c < node.children().len() ==> m.contains_key(#[trigger] node.children()[c].0)
}

/// Whether every child of `node` has an entry in `m`.
fn children_all_mapped(node: &MastNode, m: &BTreeMap<u32, MastNodeId>) -> (r: bool)
    ensures
        r == children_mapped(node@, m@),
{
    let mut children: Vec<MastNodeId> = Vec::new();
    node.append_children_to(&mut children);
    assert(children@ =~= node@.children());
    let mut c: usize = 0;
    while c < children.len()
        invariant
            c <= children@.len(),
            children@ == node@.children(),
            forall|k: int| 0 <= k < c ==> m@.contains_key(#[trigger] children@[k].0),
        decreases children@.len() - c,
    {
        match m.get(&children[c].0) {
            Some(_) => {},
            None => {
                return false;
            },
        }
        c = c + 1;
    }
    true
}

/// The state of a merge in progress: the merged nodes, their fingerprints, and for each input
/// forest its node id mapping so far.
pub ghost struct MergeState {
    pub nodes: Seq<MastNodeView>,
    pub fps: Seq<MastNodeFingerprintView>,
    pub maps: Seq<Map<u32, MastNodeId>>,
}

/// The mappings of a list of node id mappings.
pub open spec fn map_views(maps: Seq<BTreeMap<u32, MastNodeId>>) -> Seq<Map<u32, MastNodeId>> {
    Seq::new(maps.len(), |g: int| maps[g]@)
}

/// The merge state held by a merged forest, its fingerprints and the node id mappings.
pub open spec fn state_of(
    merged: Seq<MastNodeView>,
    fps: Seq<MastNodeFingerprint>,
    maps: Seq<BTreeMap<u32, MastNodeId>>,
) -> MergeState {
    MergeState { nodes: merged, fps: fingerprint_views(fps), maps: map_views(maps) }
}

/// One step of a merge: node `i` of forest `f`, unless it already has a new id.
///
/// When `replace` holds and the node is external with a replacement (`replacement_of`), the node
/// is not added: once the replacement has a new id, the node takes that id; until then it waits.
/// Any other node waits (when `replace` holds) until all its children have new ids, and is then
/// merged by `merge_node_spec` with its forest's mappings. The flag tells whether the node got
/// its new id in this step.
pub open spec fn merge_step(
    forests: Seq<Seq<MastNodeView>>,
    decs: Seq<Seq<u8>>,
    idss: Seq<Seq<DecoratorId>>,
    s: MergeState,
    f: int,
    i: int,
    replace: bool,
) -> Result<(MergeState, bool), MastForestError> {
    let node = forests[f][i];
    let m = s.maps[f];
    if m.contains_key(i as u32) {
        Ok((s, false))
    } else {
        let target = if replace && node is External {
            replacement_of(forests, node.digest())
        } else {
            None
        };
        match target {
            Some((g, j)) => if s.maps[g as int].contains_key(j as u32) {
                Ok(
                    (
                        MergeState {
                            maps: s.maps.update(f, m.insert(i as u32, s.maps[g as int][j as u32])),
                            ..s
                        },
                        true,
                    ),
                )
            } else {
                Ok((s, false))
            },
            None => if replace && !children_mapped(node, m) {
                Ok((s, false))
            } else {
                match merge_node_spec(s.nodes, s.fps, decs, m, id_map(idss[f]), node) {
                    Err(e) => Err(e),
                    Ok((n2, f2, id)) => Ok(
                        (
                            MergeState { nodes: n2, fps: f2, maps: s.maps.update(f, m.insert(i as u32, id)) },
                            true,
                        ),
                    ),
                }
            },
        }
    }
}

/// The decorator id mappings fit the merged decorators: one per forest, forest `g` mapping by
/// `id_map(idss[g])` onto ids below `n`.
pub open spec fn decorator_maps_fit(
    decorator_maps: Seq<BTreeMap<u32, DecoratorId>>,
    idss: Seq<Seq<DecoratorId>>,
    forests: nat,
    n: nat,
) -> bool {
    &&& decorator_maps.len() == forests
    &&& idss.len() == forests
    &&& forall|g: int|
        0 <= g < forests ==> (#[trigger] decorator_maps[g])@ == id_map(idss[g]) && targets_below(
            decorator_maps[g]@,
            n,
        )
}

/// Every forest is small enough for `u32` node ids.
pub open spec fn forests_fit(forests: Seq<MastForest>) -> bool {
    forall|f: int| 0 <= f < forests.len() ==> (#[trigger] forests[f])@.len() <= max_nodes()
}

/// Sets the mapping of `k` to `v` in mapping `f`.
fn map_insert(maps: &mut Vec<BTreeMap<u32, MastNodeId>>, f: usize, k: u32, v: MastNodeId)
    requires
        f < old(maps)@.len(),
    ensures
        final(maps)@.len() == old(maps)@.len(),
        map_views(final(maps)@) == map_views(old(maps)@).update(
            f as int,
            old(maps)@[f as int]@.insert(k, v),
        ),
{
    let mut m = maps.remove(f);
    m.insert(k, v);
    maps.insert(f, m);
    proof {
        assert(map_views(maps@) =~= map_views(old(maps)@).update(
            f as int,
            old(maps)@[f as int]@.insert(k, v),
        ));
    }
}

/// Performs one step of a merge, as `merge_step` says.
fn merge_step_exec(
    forests: &[MastForest],
    decs: &[DecoratorFingerprint],
    decorator_maps: &Vec<BTreeMap<u32, DecoratorId>>,
    merged: &mut MastForest,
    fingerprints: &mut Vec<MastNodeFingerprint>,
    maps: &mut Vec<BTreeMap<u32, MastNodeId>>,
    f: usize,
    i: usize,
    replace: bool,
    Ghost(idss): Ghost<Seq<Seq<DecoratorId>>>,
) -> (r: Result<bool, MastForestError>)
    requires
        forests_fit(forests@),
        decorator_maps_fit(decorator_maps@, idss, forests@.len(), decs@.len()),
        old(maps)@.len() == forests@.len(),
        f < forests@.len(),
        i < forests@[f as int]@.len(),
        old(fingerprints)@.len() == old(merged)@.len(),
        old(merged)@.len() <= max_nodes(),
    ensures
        final(maps)@.len() == forests@.len(),
        final(fingerprints)@.len() == final(merged)@.len(),
        final(merged)@.len() <= max_nodes(),
        match merge_step(
            forest_views(forests@),
            fingerprint_seqs(decs@),
            idss,
            state_of(old(merged)@, old(fingerprints)@, old(maps)@),
            f as int,
            i as int,
            replace,
        ) {
            Ok((st, p)) => r == Ok::<bool, MastForestError>(p) && state_of(
                final(merged)@,
                final(fingerprints)@,
                final(maps)@,
            ) == st,
            Err(e) => r == Err::<bool, MastForestError>(e),
        },
{
    let ghost fv = forest_views(forests@);
    let ghost s0 = state_of(merged@, fingerprints@, maps@);
    let forest = &forests[f];
    proof {
        assert(forests@[f as int]@.len() <= max_nodes());
    }
    let node = match forest.get_node_by_id(MastNodeId(i as u32)) {
        Some(x) => x,
        None => vstd::pervasive::unreached(),
    };
    proof {
        assert(fv[f as int][i as int] == node@);
        assert(s0.maps[f as int] == maps@[f as int]@);
    }
    match maps[f].get(&(i as u32)) {
        Some(_) => {
            return Ok(false);
        },
        None => {},
    }
    let target = if replace && node.is_external() {
        let d = node.digest();
        find_replacement(forests, &d)
    } else {
        None
    };
    match target {
        Some((g, j)) => {
            proof {
                assert(s0.maps[g as int] == maps@[g as int]@);
            }
            match maps[g].get(&(j as u32)) {
                Some(id) => {
                    let id = *id;
                    map_insert(maps, f, i as u32, id);
                    Ok(true)
                },
                None => Ok(false),
            }
        },
        None => {
            if replace && !children_all_mapped(node, &maps[f]) {
                return Ok(false);
            }
            proof {
                assert(decorator_maps@[f as int]@ == id_map(idss[f as int]));
            }
            match merge_node(merged, fingerprints, decs, &maps[f], &decorator_maps[f], node) {
                Ok(id) => {
                    map_insert(maps, f, i as u32, id);
                    Ok(true)
                },
                Err(e) => Err(e),
            }
        },
    }
}

/// The steps for nodes `0..k` of forest `f`, in order; the flag tells whether any node got its
/// new id.
pub open spec fn merge_pass_forest(
    forests: Seq<Seq<MastNodeView>>,
    decs: Seq<Seq<u8>>,
    idss: Seq<Seq<DecoratorId>>,
    s: MergeState,
    f: int,
    k: nat,
    replace: bool,
) -> Result<(MergeState, bool), MastForestError>
    decreases k,
{
    if k == 0 {
        Ok((s, false))
    } else {
        match merge_pass_forest(forests, decs, idss, s, f, (k - 1) as nat, replace) {
            Err(e) => Err(e),
            Ok((s1, p1)) => match merge_step(forests, decs, idss, s1, f, k - 1, replace) {
                Err(e) => Err(e),
                Ok((s2, p2)) => Ok((s2, p1 || p2)),
            },
        }
    }
}

/// A pass over the nodes of forests `0..nf`, forest by forest.
pub open spec fn merge_pass(
    forests: Seq<Seq<MastNodeView>>,
    decs: Seq<Seq<u8>>,
    idss: Seq<Seq<DecoratorId>>,
    s: MergeState,
    nf: nat,
    replace: bool,
) -> Result<(MergeState, bool), MastForestError>
    decreases nf,
{
    if nf == 0 {
        Ok((s, false))
    } else {
        match merge_pass(forests, decs, idss, s, (nf - 1) as nat, replace) {
            Err(e) => Err(e),
            Ok((s1, p1)) => match merge_pass_forest(
                forests,
                decs,
                idss,
                s1,
                nf - 1,
                forests[nf - 1].len(),
                replace,
            ) {
                Err(e) => Err(e),
                Ok((s2, p2)) => Ok((s2, p1 || p2)),
            },
        }
    }
}

/// Passes with replacement over all forests, at most `fuel` of them, until a pass gives no node
/// a new id.
pub open spec fn merge_rounds(
    forests: Seq<Seq<MastNodeView>>,
    decs: Seq<Seq<u8>>,
    idss: Seq<Seq<DecoratorId>>,
    s: MergeState,
    fuel: nat,
) -> Result<MergeState, MastForestError>
    decreases fuel,
{
    if fuel == 0 {
        Ok(s)
    } else {
        match merge_pass(forests, decs, idss, s, forests.len(), true) {
            Err(e) => Err(e),
            Ok((s1, p)) => if p {
                merge_rounds(forests, decs, idss, s1, (fuel - 1) as nat)
            } else {
                Ok(s1)
            },
        }
    }
}

/// The state before any node is merged: no nodes, and an empty mapping per forest.
pub open spec fn initial_state(n: nat) -> MergeState {
    MergeState {
        nodes: Seq::empty(),
        fps: Seq::empty(),
        maps: Seq::new(n, |f: int| Map::<u32, MastNodeId>::empty()),
    }
}

/// Merging the nodes of every forest: passes that replace external nodes and wait for children
/// (and replacements) to be merged first, until nothing more can be merged; then one last pass,
/// without replacement or waiting, for whatever is left (nodes whose replacement depends on
/// themselves). Forest `f` uses the decorator mapping `id_map(idss[f])`.
pub open spec fn merge_all_nodes_spec(
    forests: Seq<Seq<MastNodeView>>,
    decs: Seq<Seq<u8>>,
    idss: Seq<Seq<DecoratorId>>,
) -> Result<MergeState, MastForestError> {
    match merge_rounds(forests, decs, idss, initial_state(forests.len()), u64::MAX as nat) {
        Err(e) => Err(e),
        Ok(s) => match merge_pass(forests, decs, idss, s, forests.len(), false) {
            Err(e) => Err(e),
            Ok((s2, _)) => Ok(s2),
        },
    }
}

proof fn lemma_pass_forest_err_stays(
    forests: Seq<Seq<MastNodeView>>,
    decs: Seq<Seq<u8>>,
    idss: Seq<Seq<DecoratorId>>,
    s: MergeState,
    f: int,
    k: nat,
    n: nat,
    replace: bool,
)
    requires
        k <= n,
        merge_pass_forest(forests, decs, idss, s, f, k, replace) is Err,
    ensures
        merge_pass_forest(forests, decs, idss, s, f, n, replace) == merge_pass_forest(
            forests,
            decs,
            idss,
            s,
            f,
            k,
            replace,
        ),
    decreases n - k,
{
    if k < n {
        lemma_pass_forest_err_stays(forests, decs, idss, s, f, k, (n - 1) as nat, replace);
    }
}

proof fn lemma_pass_err_stays(
    forests: Seq<Seq<MastNodeView>>,
    decs: Seq<Seq<u8>>,
    idss: Seq<Seq<DecoratorId>>,
    s: MergeState,
    k: nat,
    n: nat,
    replace: bool,
)
    requires
        k <= n,
        merge_pass(forests, decs, idss, s, k, replace) is Err,
    ensures
        merge_pass(forests, decs, idss, s, n, replace) == merge_pass(forests, decs, idss, s, k, replace),
    decreases n - k,
{
    if k < n {
        lemma_pass_err_stays(forests, decs, idss, s, k, (n - 1) as nat, replace);
    }
}

/// Runs one pass over all forests, as `merge_pass` says.
fn merge_pass_exec(
    forests: &[MastForest],
    decs: &[DecoratorFingerprint],
    decorator_maps: &Vec<BTreeMap<u32, DecoratorId>>,
    merged: &mut MastForest,
    fingerprints: &mut Vec<MastNodeFingerprint>,
    maps: &mut Vec<BTreeMap<u32, MastNodeId>>,
    replace: bool,
    Ghost(idss): Ghost<Seq<Seq<DecoratorId>>>,
) -> (r: Result<bool, MastForestError>)
    requires
        forests_fit(forests@),
        decorator_maps_fit(decorator_maps@, idss, forests@.len(), decs@.len()),
        old(maps)@.len() == forests@.len(),
        old(fingerprints)@.len() == old(merged)@.len(),
        old(merged)@.len() <= max_nodes(),
    ensures
        final(maps)@.len() == forests@.len(),
        final(fingerprints)@.len() == final(merged)@.len(),
        final(merged)@.len() <= max_nodes(),
        match merge_pass(
            forest_views(forests@),
            fingerprint_seqs(decs@),
            idss,
            state_of(old(merged)@, old(fingerprints)@, old(maps)@),
            forests@.len(),
            replace,
        ) {
            Ok((st, p)) => r == Ok::<bool, MastForestError>(p) && state_of(
                final(merged)@,
                final(fingerprints)@,
                final(maps)@,
            ) == st,
            Err(e) => r == Err::<bool, MastForestError>(e),
        },
{
    let ghost fv = forest_views(forests@);
    let ghost d = fingerprint_seqs(decs@);
    let ghost s0 = state_of(merged@, fingerprints@, maps@);
    let mut progressed = false;
    let mut f: usize = 0;
    while f < forests.len()
        invariant
            f <= forests@.len(),
            fv == forest_views(forests@),
            d == fingerprint_seqs(decs@),
            forests_fit(forests@),
            decorator_maps_fit(decorator_maps@, idss, forests@.len(), decs@.len()),
            maps@.len() == forests@.len(),
            fingerprints@.len() == merged@.len(),
            merged@.len() <= max_nodes(),
            merge_pass(fv, d, idss, s0, f as nat, replace) == Ok::<(MergeState, bool), MastForestError>(
                (state_of(merged@, fingerprints@, maps@), progressed),
            ),
            s0 == state_of(old(merged)@, old(fingerprints)@, old(maps)@),
        decreases forests@.len() - f,
    {
        let n = forests[f].num_nodes();
        let ghost sf = state_of(merged@, fingerprints@, maps@);
        let ghost pf = progressed;
        let mut p_in = false;
        let mut i: usize = 0;
        proof {
            assert(fv[f as int].len() == n);
        }
        while i < n
            invariant
                i <= n,
                f < forests@.len(),
                n == forests@[f as int]@.len(),
                fv == forest_views(forests@),
                d == fingerprint_seqs(decs@),
                forests_fit(forests@),
                decorator_maps_fit(decorator_maps@, idss, forests@.len(), decs@.len()),
                maps@.len() == forests@.len(),
                fingerprints@.len() == merged@.len(),
                merged@.len() <= max_nodes(),
                merge_pass(fv, d, idss, s0, f as nat, replace) == Ok::<
                    (MergeState, bool),
                    MastForestError,
                >((sf, pf)),
                s0 == state_of(old(merged)@, old(fingerprints)@, old(maps)@),
                merge_pass_forest(fv, d, idss, sf, f as int, i as nat, replace) == Ok::<
                    (MergeState, bool),
                    MastForestError,
                >((state_of(merged@, fingerprints@, maps@), p_in)),
            decreases n - i,
        {
            match merge_step_exec(
                forests,
                decs,
                decorator_maps,
                merged,
                fingerprints,
                maps,
                f,
                i,
                replace,
                Ghost(idss),
            ) {
                Ok(p) => {
                    p_in = p_in || p;
                },
                Err(e) => {
                    proof {
                        assert(merge_pass_forest(fv, d, idss, sf, f as int, (i + 1) as nat, replace)
                            == Err::<(MergeState, bool), MastForestError>(e));
                        lemma_pass_forest_err_stays(fv, d, idss, sf, f as int, (i + 1) as nat, n as nat, replace);
                        assert(fv[f as int].len() == n);
                        assert(merge_pass(fv, d, idss, s0, (f + 1) as nat, replace)
                            == Err::<(MergeState, bool), MastForestError>(e));
                        lemma_pass_err_stays(fv, d, idss, s0, (f + 1) as nat, forests@.len() as nat, replace);
                    }
                    return Err(e);
                },
            }
            i = i + 1;
        }
        proof {
            assert(fv[f as int].len() == n);
        }
        progressed = progressed || p_in;
        f = f + 1;
    }
    Ok(progressed)
}

/// Merges the nodes of every forest, as `merge_all_nodes_spec` says, and returns the merged
/// forest and each forest's node id mapping.
fn merge_all_nodes(
    forests: &[MastForest],
    decs: &[DecoratorFingerprint],
    decorator_maps: &Vec<BTreeMap<u32, DecoratorId>>,
    Ghost(idss): Ghost<Seq<Seq<DecoratorId>>>,
) -> (r: Result<(MastForest, Vec<BTreeMap<u32, MastNodeId>>), MastForestError>)
    requires
        forests_fit(forests@),
        decorator_maps_fit(decorator_maps@, idss, forests@.len(), decs@.len()),
    ensures
        match merge_all_nodes_spec(forest_views(forests@), fingerprint_seqs(decs@), idss) {
            Ok(st) => r is Ok && r->Ok_0.0@ == st.nodes && map_views(r->Ok_0.1@) == st.maps,
            Err(e) => r is Err && r->Err_0 == e,
        },
{
    let ghost fv = forest_views(forests@);
    let ghost d = fingerprint_seqs(decs@);
    let mut merged = MastForest::new();
    let mut fingerprints: Vec<MastNodeFingerprint> = Vec::new();
    let mut maps: Vec<BTreeMap<u32, MastNodeId>> = Vec::new();
    let mut f: usize = 0;
    while f < forests.len()
        invariant
            f <= forests@.len(),
            maps@.len() == f,
            forall|g: int| 0 <= g < f ==> (#[trigger] maps@[g])@ == Map::<u32, MastNodeId>::empty(),
        decreases forests@.len() - f,
    {
        maps.push(BTreeMap::new());
        f = f + 1;
    }
    proof {
        assert(state_of(merged@, fingerprints@, maps@) == initial_state(forests@.len() as nat)) by {
            assert(map_views(maps@) =~= initial_state(forests@.len() as nat).maps);
            assert(fingerprint_views(fingerprints@) =~= Seq::<MastNodeFingerprintView>::empty());
            assert(merged@ =~= Seq::<MastNodeView>::empty());
        }
    }
    let ghost init = initial_state(forests@.len() as nat);
    let mut fuel: u64 = u64::MAX;
    loop
        invariant_except_break
            merge_rounds(fv, d, idss, init, u64::MAX as nat) == merge_rounds(
                fv,
                d,
                idss,
                state_of(merged@, fingerprints@, maps@),
                fuel as nat,
            ),
        invariant
            fv == forest_views(forests@),
            d == fingerprint_seqs(decs@),
            init == initial_state(forests@.len() as nat),
            forests_fit(forests@),
            decorator_maps_fit(decorator_maps@, idss, forests@.len(), decs@.len()),
            maps@.len() == forests@.len(),
            fingerprints@.len() == merged@.len(),
            merged@.len() <= max_nodes(),
        ensures
            maps@.len() == forests@.len(),
            fingerprints@.len() == merged@.len(),
            merged@.len() <= max_nodes(),
            merge_rounds(fv, d, idss, init, u64::MAX as nat) == Ok::<MergeState, MastForestError>(
                state_of(merged@, fingerprints@, maps@),
            ),
        decreases fuel,
    {
        if fuel == 0 {
            break;
        }
        let ghost before = state_of(merged@, fingerprints@, maps@);
        match merge_pass_exec(
            forests,
            decs,
            decorator_maps,
            &mut merged,
            &mut fingerprints,
            &mut maps,
            true,
            Ghost(idss),
        ) {
            Ok(p) => {
                if !p {
                    break;
                }
            },
            Err(e) => {
                proof {
                    assert(merge_rounds(fv, d, idss, before, fuel as nat)
                        == Err::<MergeState, MastForestError>(e));
                }
                return Err(e);
            },
        }
        fuel = fuel - 1;
    }
    match merge_pass_exec(
        forests,
        decs,
        decorator_maps,
        &mut merged,
        &mut fingerprints,
        &mut maps,
        false,
        Ghost(idss),
    ) {
        Ok(_) => Ok((merged, maps)),
        Err(e) => Err(e),
    }
}

/// Every mapping of `a` keeps its entries in `b`, and there are as many mappings.
pub open spec fn maps_grow(a: Seq<Map<u32, MastNodeId>>, b: Seq<Map<u32, MastNodeId>>) -> bool {
    &&& a.len() == b.len()
    &&& forall|g: int, k: u32| 0 <= g < a.len() && #[trigger] a[g].contains_key(k) ==> b[g].contains_key(k)
}

proof fn lemma_step_grows(
    forests: Seq<Seq<MastNodeView>>,
    decs: Seq<Seq<u8>>,
    idss: Seq<Seq<DecoratorId>>,
    s: MergeState,
    f: int,
    i: int,
    replace: bool,
)
    requires
        0 <= f < s.maps.len(),
        merge_step(forests, decs, idss, s, f, i, replace) is Ok,
    ensures
        maps_grow(s.maps, merge_step(forests, decs, idss, s, f, i, replace)->Ok_0.0.maps),
        !replace ==> merge_step(forests, decs, idss, s, f, i, replace)->Ok_0.0.maps[f].contains_key(
            i as u32,
        ),
{
}

proof fn lemma_pass_forest_grows(
    forests: Seq<Seq<MastNodeView>>,
    decs: Seq<Seq<u8>>,
    idss: Seq<Seq<DecoratorId>>,
    s: MergeState,
    f: int,
    k: nat,
    replace: bool,
)
    requires
        0 <= f < s.maps.len(),
        merge_pass_forest(forests, decs, idss, s, f, k, replace) is Ok,
    ensures
        maps_grow(s.maps, merge_pass_forest(forests, decs, idss, s, f, k, replace)->Ok_0.0.maps),
        !replace ==> forall|j: u32|
            j < k ==> #[trigger] merge_pass_forest(forests, decs, idss, s, f, k, replace)->Ok_0.0.maps[f].contains_key(j),
    decreases k,
{
    if k > 0 {
        lemma_pass_forest_grows(forests, decs, idss, s, f, (k - 1) as nat, replace);
        let s1 = merge_pass_forest(forests, decs, idss, s, f, (k - 1) as nat, replace)->Ok_0.0;
        lemma_step_grows(forests, decs, idss, s1, f, k - 1, replace);
        let s2 = merge_step(forests, decs, idss, s1, f, k - 1, replace)->Ok_0.0;
        assert(merge_pass_forest(forests, decs, idss, s, f, k, replace)->Ok_0.0 == s2);
        if !replace {
            assert forall|j: u32| j < k implies #[trigger] s2.maps[f].contains_key(j) by {
                if j < k - 1 {
                    assert(s1.maps[f].contains_key(j));
                }
            }
        }
    }
}

proof fn lemma_pass_grows(
    forests: Seq<Seq<MastNodeView>>,
    decs: Seq<Seq<u8>>,
    idss: Seq<Seq<DecoratorId>>,
    s: MergeState,
    nf: nat,
    replace: bool,
)
    requires
        nf <= s.maps.len(),
        merge_pass(forests, decs, idss, s, nf, replace) is Ok,
    ensures
        maps_grow(s.maps, merge_pass(forests, decs, idss, s, nf, replace)->Ok_0.0.maps),
        !replace ==> forall|g: int, j: u32|
            0 <= g < nf && j < forests[g].len() ==> #[trigger] merge_pass(
                forests,
                decs,
                idss,
                s,
                nf,
                replace,
            )->Ok_0.0.maps[g].contains_key(j),
    decreases nf,
{
    if nf > 0 {
        lemma_pass_grows(forests, decs, idss, s, (nf - 1) as nat, replace);
        let s1 = merge_pass(forests, decs, idss, s, (nf - 1) as nat, replace)->Ok_0.0;
        lemma_pass_forest_grows(forests, decs, idss, s1, nf - 1, forests[nf - 1].len(), replace);
        let s2 = merge_pass_forest(forests, decs, idss, s1, nf - 1, forests[nf - 1].len(), replace)->Ok_0.0;
        assert(merge_pass(forests, decs, idss, s, nf, replace)->Ok_0.0 == s2);
        if !replace {
            assert forall|g: int, j: u32| 0 <= g < nf && j < forests[g].len() implies #[trigger] s2.maps[g].contains_key(j) by {
                if g < nf - 1 {
                    assert(s1.maps[g].contains_key(j));
                }
            }
        }
    }
}

proof fn lemma_rounds_keep_count(
    forests: Seq<Seq<MastNodeView>>,
    decs: Seq<Seq<u8>>,
    idss: Seq<Seq<DecoratorId>>,
    s: MergeState,
    fuel: nat,
)
    requires
        s.maps.len() == forests.len(),
        merge_rounds(forests, decs, idss, s, fuel) is Ok,
    ensures
        merge_rounds(forests, decs, idss, s, fuel)->Ok_0.maps.len() == forests.len(),
    decreases fuel,
{
    if fuel > 0 {
        lemma_pass_grows(forests, decs, idss, s, forests.len(), true);
        let (s1, p) = merge_pass(forests, decs, idss, s, forests.len(), true)->Ok_0;
        if p {
            lemma_rounds_keep_count(forests, decs, idss, s1, (fuel - 1) as nat);
        }
    }
}

/// After a merge, every node of every forest has an entry in its forest's node id mapping.
pub proof fn lemma_merge_all_nodes_maps_all(
    forests: Seq<Seq<MastNodeView>>,
    decs: Seq<Seq<u8>>,
    idss: Seq<Seq<DecoratorId>>,
)
    requires
        merge_all_nodes_spec(forests, decs, idss) is Ok,
    ensures
        merge_all_nodes_spec(forests, decs, idss)->Ok_0.maps.len() == forests.len(),
        forall|f: int, k: u32|
            0 <= f < forests.len() && k < forests[f].len() ==> #[trigger] merge_all_nodes_spec(
                forests,
                decs,
                idss,
            )->Ok_0.maps[f].contains_key(k),
{
    let init = initial_state(forests.len());
    lemma_rounds_keep_count(forests, decs, idss, init, u64::MAX as nat);
    let s = merge_rounds(forests, decs, idss, init, u64::MAX as nat)->Ok_0;
    lemma_pass_grows(forests, decs, idss, s, forests.len(), false);
}

/// The merged nodes have distinct fingerprints, one per node.
pub open spec fn fingerprints_ok(s: MergeState) -> bool {
    all_distinct(s.fps) && s.fps.len() == s.nodes.len()
}

proof fn lemma_merge_node_distinct(
    nodes: Seq<MastNodeView>,
    fps: Seq<MastNodeFingerprintView>,
    dec_fps: Seq<Seq<u8>>,
    node_map: Map<u32, MastNodeId>,
    decorator_map: Map<u32, DecoratorId>,
    src: MastNodeView,
)
    requires
        all_distinct(fps),
        fps.len() == nodes.len(),
        merge_node_spec(nodes, fps, dec_fps, node_map, decorator_map, src) is Ok,
    ensures
        all_distinct(merge_node_spec(nodes, fps, dec_fps, node_map, decorator_map, src)->Ok_0.1),
        merge_node_spec(nodes, fps, dec_fps, node_map, decorator_map, src)->Ok_0.1.len()
            == merge_node_spec(nodes, fps, dec_fps, node_map, decorator_map, src)->Ok_0.0.len(),
{
    let b = remapped_builder(src, node_map, decorator_map)->Ok_0;
    let n = node_built(b, nodes)->Ok_0;
    let fp = fingerprint_of(dec_fps, fps, n.before_enter(), n.after_exit(), n.children(), n.digest())->Ok_0;
    if find_fingerprint(fps, fp) is None {
        lemma_find_none(fps, fp);
        let f2 = fps.push(fp);
        assert forall|i: int, j: int| 0 <= i < j < f2.len() implies f2[i] != f2[j] by {
            assert(f2[i] == fps[i]);
            if j < fps.len() {
                assert(f2[j] == fps[j]);
            }
        }
    }
}

proof fn lemma_pass_forest_distinct(
    forests: Seq<Seq<MastNodeView>>,
    decs: Seq<Seq<u8>>,
    idss: Seq<Seq<DecoratorId>>,
    s: MergeState,
    f: int,
    k: nat,
    replace: bool,
)
    requires
        fingerprints_ok(s),
        merge_pass_forest(forests, decs, idss, s, f, k, replace) is Ok,
    ensures
        fingerprints_ok(merge_pass_forest(forests, decs, idss, s, f, k, replace)->Ok_0.0),
    decreases k,
{
    if k > 0 {
        lemma_pass_forest_distinct(forests, decs, idss, s, f, (k - 1) as nat, replace);
        let s1 = merge_pass_forest(forests, decs, idss, s, f, (k - 1) as nat, replace)->Ok_0.0;
        let node = forests[f][k - 1];
        let m = s1.maps[f];
        if merge_node_spec(s1.nodes, s1.fps, decs, m, id_map(idss[f]), node) is Ok {
            lemma_merge_node_distinct(s1.nodes, s1.fps, decs, m, id_map(idss[f]), node);
        }
    }
}

proof fn lemma_pass_distinct(
    forests: Seq<Seq<MastNodeView>>,
    decs: Seq<Seq<u8>>,
    idss: Seq<Seq<DecoratorId>>,
    s: MergeState,
    nf: nat,
    replace: bool,
)
    requires
        fingerprints_ok(s),
        merge_pass(forests, decs, idss, s, nf, replace) is Ok,
    ensures
        fingerprints_ok(merge_pass(forests, decs, idss, s, nf, replace)->Ok_0.0),
    decreases nf,
{
    if nf > 0 {
        lemma_pass_distinct(forests, decs, idss, s, (nf - 1) as nat, replace);
        let s1 = merge_pass(forests, decs, idss, s, (nf - 1) as nat, replace)->Ok_0.0;
        lemma_pass_forest_distinct(forests, decs, idss, s1, nf - 1, forests[nf - 1].len(), replace);
    }
}

proof fn lemma_rounds_distinct(
    forests: Seq<Seq<MastNodeView>>,
    decs: Seq<Seq<u8>>,
    idss: Seq<Seq<DecoratorId>>,
    s: MergeState,
    fuel: nat,
)
    requires
        fingerprints_ok(s),
        merge_rounds(forests, decs, idss, s, fuel) is Ok,
    ensures
        fingerprints_ok(merge_rounds(forests, decs, idss, s, fuel)->Ok_0),
    decreases fuel,
{
    if fuel > 0 {
        lemma_pass_distinct(forests, decs, idss, s, forests.len(), true);
        let (s1, p) = merge_pass(forests, decs, idss, s, forests.len(), true)->Ok_0;
        if p {
            lemma_rounds_distinct(forests, decs, idss, s1, (fuel - 1) as nat);
        }
    }
}

/// Merging keeps the merged nodes free of duplicates: no two merged nodes have the same
/// fingerprint, and each merged node has its fingerprint.
pub proof fn lemma_merged_fingerprints_distinct(
    forests: Seq<Seq<MastNodeView>>,
    decs: Seq<Seq<u8>>,
    idss: Seq<Seq<DecoratorId>>,
)
    requires
        merge_all_nodes_spec(forests, decs, idss) is Ok,
    ensures
        fingerprints_ok(merge_all_nodes_spec(forests, decs, idss)->Ok_0),
{
    let init = initial_state(forests.len());
    lemma_rounds_distinct(forests, decs, idss, init, u64::MAX as nat);
    let s = merge_rounds(forests, decs, idss, init, u64::MAX as nat)->Ok_0;
    lemma_pass_distinct(forests, decs, idss, s, forests.len(), false);
}

/// The entries of an advice map: each key with its values.
pub open spec fn advice_view(entries: Seq<(Word, Vec<u64>)>) -> Seq<(Word, Seq<u64>)> {
    Seq::new(entries.len(), |i: int| (entries[i].0, entries[i].1@))
}

/// The advice maps of each forest.
pub open spec fn all_advice_views(maps: Seq<Vec<(Word, Vec<u64>)>>) -> Seq<Seq<(Word, Seq<u64>)>> {
    Seq::new(maps.len(), |f: int| advice_view(maps[f]@))
}

/// The position of the entry of `acc` with key `key`, if any.
pub open spec fn find_key(acc: Seq<(Word, Seq<u64>)>, key: Word) -> Option<nat>
    decreases acc.len(),
{
    if acc.len() == 0 {
        None
    } else {
        match find_key(acc.drop_last(), key) {
            Some(j) => Some(j),
            None => if acc.last().0@ == key@ {
                Some((acc.len() - 1) as nat)
            } else {
                None
            },
        }
    }
}

/// Merging the entries of one advice map into the merged entries, in order: an entry whose key
/// is already merged with the same values changes nothing, one whose key is merged with other
/// values is a collision, any other is added.
pub open spec fn merge_advice_spec(acc: Seq<(Word, Seq<u64>)>, entries: Seq<(Word, Seq<u64>)>) -> Result<
    Seq<(Word, Seq<u64>)>,
    MastForestError,
>
    decreases entries.len(),
{
    if entries.len() == 0 {
        Ok(acc)
    } else {
        match merge_advice_spec(acc, entries.drop_last()) {
            Err(e) => Err(e),
            Ok(a1) => {
                let (k, v) = entries.last();
                match find_key(a1, k) {
                    Some(j) => if a1[j as int].1 == v {
                        Ok(a1)
                    } else {
                        Err(MastForestError::AdviceMapKeyCollisionOnMerge(k))
                    },
                    None => Ok(a1.push((k, v))),
                }
            },
        }
    }
}

/// Merging the advice maps of every forest, in order.
pub open spec fn merge_all_advice_spec(maps: Seq<Seq<(Word, Seq<u64>)>>) -> Result<
    Seq<(Word, Seq<u64>)>,
    MastForestError,
>
    decreases maps.len(),
{
    if maps.len() == 0 {
        Ok(Seq::empty())
    } else {
        match merge_all_advice_spec(maps.drop_last()) {
            Err(e) => Err(e),
            Ok(acc) => merge_advice_spec(acc, maps.last()),
        }
    }
}

proof fn lemma_merge_advice_err_stays(acc: Seq<(Word, Seq<u64>)>, entries: Seq<(Word, Seq<u64>)>, k: int)
    requires
        0 < k <= entries.len(),
        merge_advice_spec(acc, entries.take(k)) is Err,
    ensures
        merge_advice_spec(acc, entries) == merge_advice_spec(acc, entries.take(k)),
    decreases entries.len() - k,
{
    if k < entries.len() {
        assert(entries.take(k + 1).drop_last() =~= entries.take(k));
        lemma_merge_advice_err_stays(acc, entries, k + 1);
    } else {
        assert(entries.take(k) =~= entries);
    }
}

proof fn lemma_merge_all_advice_err_stays(maps: Seq<Seq<(Word, Seq<u64>)>>, k: int)
    requires
        0 < k <= maps.len(),
        merge_all_advice_spec(maps.take(k)) is Err,
    ensures
        merge_all_advice_spec(maps) == merge_all_advice_spec(maps.take(k)),
    decreases maps.len() - k,
{
    if k < maps.len() {
        assert(maps.take(k + 1).drop_last() =~= maps.take(k));
        lemma_merge_all_advice_err_stays(maps, k + 1);
    } else {
        assert(maps.take(k) =~= maps);
    }
}

/// A copy of `v`.
fn copy_u64s(v: &Vec<u64>) -> (r: Vec<u64>)
    ensures
        r@ == v@,
{
    let mut out: Vec<u64> = Vec::new();
    let mut i: usize = 0;
    while i < v.len()
        invariant
            i <= v@.len(),
            out@ == v@.take(i as int),
        decreases v@.len() - i,
    {
        out.push(v[i]);
        proof {
            assert(v@.take(i + 1) =~= v@.take(i as int).push(v@[i as int]));
        }
        i = i + 1;
    }
    proof {
        assert(v@.take(v@.len() as int) =~= v@);
    }
    out
}

/// Whether two lists of values are equal.
fn same_values(a: &Vec<u64>, b: &Vec<u64>) -> (r: bool)
    ensures
        r == (a@ == b@),
{
    if a.len() != b.len() {
        return false;
    }
    let mut i: usize = 0;
    while i < a.len()
        invariant
            i <= a@.len(),
            a@.len() == b@.len(),
            forall|j: int| 0 <= j < i ==> a@[j] == b@[j],
        decreases a@.len() - i,
    {
        if a[i] != b[i] {
            return false;
        }
        i = i + 1;
    }
    assert(a@ =~= b@);
    true
}

/// Merges the advice maps of every forest, as `merge_all_advice_spec` says.
fn merge_advice_maps(advice_maps: &[Vec<(Word, Vec<u64>)>]) -> (r: Result<
    Vec<(Word, Vec<u64>)>,
    MastForestError,
>)
    ensures
        match merge_all_advice_spec(all_advice_views(advice_maps@)) {
            Ok(a) => r is Ok && advice_view(r->Ok_0@) == a,
            Err(e) => r is Err && r->Err_0 == e,
        },
{
    let ghost all = all_advice_views(advice_maps@);
    let mut acc: Vec<(Word, Vec<u64>)> = Vec::new();
    let mut f: usize = 0;
    proof {
        assert(all.take(0) =~= Seq::<Seq<(Word, Seq<u64>)>>::empty());
        assert(advice_view(acc@) =~= Seq::<(Word, Seq<u64>)>::empty());
    }
    while f < advice_maps.len()
        invariant
            f <= advice_maps@.len(),
            all == all_advice_views(advice_maps@),
            merge_all_advice_spec(all.take(f as int)) == Ok::<Seq<(Word, Seq<u64>)>, MastForestError>(
                advice_view(acc@),
            ),
        decreases advice_maps@.len() - f,
    {
        let entries = &advice_maps[f];
        let ghost ev = advice_view(entries@);
        let ghost a0 = advice_view(acc@);
        proof {
            assert(all.take(f + 1).drop_last() =~= all.take(f as int));
            assert(all.take(f + 1).last() == ev);
            assert(ev.take(0) =~= Seq::<(Word, Seq<u64>)>::empty());
        }
        let mut j: usize = 0;
        while j < entries.len()
            invariant
                j <= entries@.len(),
                ev == advice_view(entries@),
                merge_advice_spec(a0, ev.take(j as int)) == Ok::<Seq<(Word, Seq<u64>)>, MastForestError>(
                    advice_view(acc@),
                ),
                f < advice_maps@.len(),
                all == all_advice_views(advice_maps@),
                all.take(f + 1).drop_last() == all.take(f as int),
                all.take(f + 1).last() == ev,
                merge_all_advice_spec(all.take(f as int)) == Ok::<Seq<(Word, Seq<u64>)>, MastForestError>(
                    a0,
                ),
            decreases entries@.len() - j,
        {
            let key = entries[j].0;
            let values = &entries[j].1;
            let ghost cur = advice_view(acc@);
            proof {
                assert(ev.take(j + 1).drop_last() =~= ev.take(j as int));
                assert(ev.take(j + 1).last() == (key, values@));
            }
            let mut k: usize = 0;
            let mut found: Option<usize> = None;
            while k < acc.len()
                invariant_except_break
                    find_key(cur.take(k as int), key) is None,
                    found is None,
                invariant
                    k <= acc@.len(),
                    cur == advice_view(acc@),
                    cur.take(cur.len() as int) == cur,
                ensures
                    match found {
                        Some(x) => x < acc@.len() && find_key(cur, key) == Some(x as nat),
                        None => find_key(cur, key) is None,
                    },
                decreases acc@.len() - k,
            {
                proof {
                    assert(cur.take(k + 1).drop_last() =~= cur.take(k as int));
                }
                let ak = acc[k].0;
                if same_u64s(&ak, &key) {
                    proof {
                        assert(cur.take(k + 1).last().0 == ak);
                        assert(find_key(cur.take(k + 1), key) == Some(k as nat));
                        lemma_find_key_stays(cur, key, k + 1);
                    }
                    found = Some(k);
                    break;
                }
                k = k + 1;
            }
            match found {
                Some(x) => {
                    if !same_values(&acc[x].1, values) {
                        proof {
                            lemma_merge_advice_err_stays(a0, ev, j + 1);
                            assert(merge_all_advice_spec(all.take(f + 1)) == merge_advice_spec(a0, ev));
                            lemma_merge_all_advice_err_stays(all, f + 1);
                        }
                        return Err(MastForestError::AdviceMapKeyCollisionOnMerge(key));
                    }
                },
                None => {
                    let copied = copy_u64s(values);
                    acc.push((key, copied));
                    proof {
                        assert(advice_view(acc@) =~= cur.push((key, values@)));
                    }
                },
            }
            j = j + 1;
        }
        proof {
            assert(ev.take(entries@.len() as int) =~= ev);
        }
        f = f + 1;
    }
    proof {
        assert(all.take(f as int) =~= all);
    }
    Ok(acc)
}

proof fn lemma_find_key_stays(acc: Seq<(Word, Seq<u64>)>, key: Word, k: int)
    requires
        0 < k <= acc.len(),
        find_key(acc.take(k), key) is Some,
    ensures
        find_key(acc, key) == find_key(acc.take(k), key),
    decreases acc.len() - k,
{
    if k < acc.len() {
        assert(acc.take(k + 1).drop_last() =~= acc.take(k));
        lemma_find_key_stays(acc, key, k + 1);
    } else {
        assert(acc.take(k) =~= acc);
    }
}

/// The error codes of every forest merged, in order: a code met again takes its later message.
pub open spec fn merge_error_codes_spec(codes: Seq<Seq<(u64, String)>>) -> Map<u64, String>
    decreases codes.len(),
{
    if codes.len() == 0 {
        Map::empty()
    } else {
        insert_codes(merge_error_codes_spec(codes.drop_last()), codes.last())
    }
}

/// `acc` with each entry of `entries` inserted, in order.
pub open spec fn insert_codes(acc: Map<u64, String>, entries: Seq<(u64, String)>) -> Map<u64, String>
    decreases entries.len(),
{
    if entries.len() == 0 {
        acc
    } else {
        insert_codes(acc, entries.drop_last()).insert(entries.last().0, entries.last().1)
    }
}

/// The error codes of each forest.
pub open spec fn all_code_views(codes: Seq<Vec<(u64, String)>>) -> Seq<Seq<(u64, String)>> {
    Seq::new(codes.len(), |f: int| codes[f]@)
}

/// Merges the error codes of every forest, as `merge_error_codes_spec` says.
fn merge_error_codes(error_codes: &[Vec<(u64, String)>]) -> (r: BTreeMap<u64, String>)
    ensures
        r@ == merge_error_codes_spec(all_code_views(error_codes@)),
{
    let ghost all = all_code_views(error_codes@);
    let mut acc: BTreeMap<u64, String> = BTreeMap::new();
    let mut f: usize = 0;
    proof {
        assert(all.take(0) =~= Seq::<Seq<(u64, String)>>::empty());
        assert(acc@ =~= Map::<u64, String>::empty());
    }
    while f < error_codes.len()
        invariant
            f <= error_codes@.len(),
            all == all_code_views(error_codes@),
            acc@ == merge_error_codes_spec(all.take(f as int)),
        decreases error_codes@.len() - f,
    {
        let entries = &error_codes[f];
        let ghost a0 = acc@;
        proof {
            assert(all.take(f + 1).drop_last() =~= all.take(f as int));
            assert(all.take(f + 1).last() == entries@);
            assert(entries@.take(0) =~= Seq::<(u64, String)>::empty());
        }
        let mut j: usize = 0;
        while j < entries.len()
            invariant
                j <= entries@.len(),
                acc@ == insert_codes(a0, entries@.take(j as int)),
            decreases entries@.len() - j,
        {
            let code = entries[j].0;
            let message = entries[j].1.clone();
            acc.insert(code, message);
            proof {
                assert(entries@.take(j + 1).drop_last() =~= entries@.take(j as int));
                assert(entries@.take(j + 1).last() == entries@[j as int]);
            }
            j = j + 1;
        }
        proof {
            assert(entries@.take(entries@.len() as int) =~= entries@);
        }
        f = f + 1;
    }
    proof {
        assert(all.take(f as int) =~= all);
    }
    acc
}

/// Every node of `nodes` is what its own builder builds against the nodes before it: its
/// children come before it and its digest is computed from theirs (as adding nodes through
/// their builders leaves a forest).
pub open spec fn forest_consistent(nodes: Seq<MastNodeView>) -> bool {
    forall|i: int|
        0 <= i < nodes.len() ==> #[trigger] node_built(nodes[i].builder(), nodes.take(i))
            == Ok::<MastNodeView, MastForestError>(nodes[i])
}

/// Every mapped node of every forest lands on a merged node with the same digest.
pub open spec fn digests_kept(forests: Seq<Seq<MastNodeView>>, s: MergeState) -> bool {
    forall|f: int, k: u32|
        0 <= f < s.maps.len() && #[trigger] s.maps[f].contains_key(k) ==> {
            &&& 0 <= f < forests.len()
            &&& k < forests[f].len()
            &&& s.maps[f][k].index() < s.nodes.len()
            &&& s.nodes[s.maps[f][k].index() as int].digest() == forests[f][k as int].digest()
        }
}

/// Each merged node's fingerprint has the node's digest as its MAST root.
pub open spec fn roots_match(s: MergeState) -> bool {
    &&& s.fps.len() == s.nodes.len()
    &&& s.nodes.len() <= max_nodes()
    &&& forall|k: int| 0 <= k < s.fps.len() ==> (#[trigger] s.fps[k]).mast_root == s.nodes[k].digest()
}

proof fn lemma_find_fingerprint_some(fps: Seq<MastNodeFingerprintView>, fp: MastNodeFingerprintView)
    requires
        find_fingerprint(fps, fp) is Some,
    ensures
        find_fingerprint(fps, fp)->0 < fps.len(),
        fps[find_fingerprint(fps, fp)->0 as int] == fp,
    decreases fps.len(),
{
    if find_fingerprint(fps.drop_last(), fp) is Some {
        lemma_find_fingerprint_some(fps.drop_last(), fp);
    }
}

proof fn lemma_first_real_some(nodes: Seq<MastNodeView>, d: Seq<u64>)
    requires
        first_real(nodes, d) is Some,
    ensures
        first_real(nodes, d)->0 < nodes.len(),
        nodes[first_real(nodes, d)->0 as int].digest() == d,
    decreases nodes.len(),
{
    if first_real(nodes.drop_last(), d) is Some {
        lemma_first_real_some(nodes.drop_last(), d);
    }
}

proof fn lemma_replacement_some(forests: Seq<Seq<MastNodeView>>, d: Seq<u64>)
    requires
        replacement_of(forests, d) is Some,
    ensures
        ({
            let p = replacement_of(forests, d)->0;
            &&& p.0 < forests.len()
            &&& p.1 < forests[p.0 as int].len()
            &&& forests[p.0 as int][p.1 as int].digest() == d
        }),
    decreases forests.len(),
{
    if replacement_of(forests.drop_last(), d) is Some {
        lemma_replacement_some(forests.drop_last(), d);
    } else {
        lemma_first_real_some(forests.last(), d);
    }
}

/// A node whose children are all mapped onto merged nodes of the same digests is built, in the
/// merged forest, with its own digest.
proof fn lemma_remapped_digest(
    src: MastNodeView,
    earlier: Seq<MastNodeView>,
    i: int,
    forest: Seq<MastNodeView>,
    f: int,
    forests: Seq<Seq<MastNodeView>>,
    s: MergeState,
    decorator_map: Map<u32, DecoratorId>,
)
    requires
        0 <= f < s.maps.len(),
        forests[f] == forest,
        0 <= i < forest.len(),
        src == forest[i],
        earlier == forest.take(i),
        node_built(src.builder(), earlier) == Ok::<MastNodeView, MastForestError>(src),
        digests_kept(forests, s),
        children_mapped(src, s.maps[f]),
        remapped_builder(src, s.maps[f], decorator_map) is Ok,
        node_built(remapped_builder(src, s.maps[f], decorator_map)->Ok_0, s.nodes) is Ok,
    ensures
        node_built(remapped_builder(src, s.maps[f], decorator_map)->Ok_0, s.nodes)->Ok_0.digest()
            == src.digest(),
{
    let m = s.maps[f];
    match src {
        MastNodeView::Join(n) => {
            assert(src.children()[0] == n.first);
            assert(src.children()[1] == n.second);
            assert(m.contains_key(n.first.0));
            assert(m.contains_key(n.second.0));
            assert(earlier[n.first.index() as int] == forest[n.first.index() as int]);
            assert(earlier[n.second.index() as int] == forest[n.second.index() as int]);
        },
        MastNodeView::Loop(n) => {
            assert(src.children()[0] == n.body);
            assert(m.contains_key(n.body.0));
            assert(earlier[n.body.index() as int] == forest[n.body.index() as int]);
        },
        MastNodeView::Call(n) => {
            assert(src.children()[0] == n.callee);
            assert(m.contains_key(n.callee.0));
            assert(earlier[n.callee.index() as int] == forest[n.callee.index() as int]);
        },
        MastNodeView::External(n) => {},
    }
}

/// Every forest of `forests` is consistent and small enough for `u32` node ids.
pub open spec fn all_consistent(forests: Seq<Seq<MastNodeView>>) -> bool {
    forall|g: int|
        0 <= g < forests.len() ==> #[trigger] forest_consistent(forests[g]) && forests[g].len()
            <= max_nodes()
}

/// Mapping one more node onto a merged node of its digest, while merged nodes are only added,
/// keeps every mapped node on a merged node of its digest.
proof fn lemma_kept_after_insert(
    forests: Seq<Seq<MastNodeView>>,
    s: MergeState,
    s2: MergeState,
    f: int,
    i: int,
    t: MastNodeId,
)
    requires
        digests_kept(forests, s),
        0 <= f < s.maps.len(),
        s.maps.len() == forests.len(),
        0 <= i < forests[f].len(),
        i <= u32::MAX,
        s2.maps == s.maps.update(f, s.maps[f].insert(i as u32, t)),
        s.nodes.len() <= s2.nodes.len(),
        forall|k: int| 0 <= k < s.nodes.len() ==> #[trigger] s2.nodes[k] == s.nodes[k],
        t.index() < s2.nodes.len(),
        s2.nodes[t.index() as int].digest() == forests[f][i].digest(),
    ensures
        digests_kept(forests, s2),
{
    assert forall|ff: int, k: u32|
        0 <= ff < s2.maps.len() && #[trigger] s2.maps[ff].contains_key(k) implies {
        &&& 0 <= ff < forests.len()
        &&& k < forests[ff].len()
        &&& s2.maps[ff][k].index() < s2.nodes.len()
        &&& s2.nodes[s2.maps[ff][k].index() as int].digest() == forests[ff][k as int].digest()
    } by {
        if !(ff == f && k == i as u32) {
            assert(s.maps[ff].contains_key(k));
            assert(s2.maps[ff][k] == s.maps[ff][k]);
            assert(s2.nodes[s.maps[ff][k].index() as int] == s.nodes[s.maps[ff][k].index() as int]);
        }
    }
}

/// The merge case of a step keeps merged nodes on nodes of their digests.
#[verifier::rlimit(40)]
proof fn lemma_merge_case_digests(
    forests: Seq<Seq<MastNodeView>>,
    decs: Seq<Seq<u8>>,
    s: MergeState,
    f: int,
    i: int,
    dmap: Map<u32, DecoratorId>,
)
    requires
        all_consistent(forests),
        s.maps.len() == forests.len(),
        digests_kept(forests, s),
        roots_match(s),
        0 <= f < forests.len(),
        0 <= i < forests[f].len(),
        i <= u32::MAX,
        children_mapped(forests[f][i], s.maps[f]),
        merge_node_spec(s.nodes, s.fps, decs, s.maps[f], dmap, forests[f][i]) is Ok,
    ensures
        ({
            let (n2, f2, id) = merge_node_spec(s.nodes, s.fps, decs, s.maps[f], dmap, forests[f][i])->Ok_0;
            let s2 = MergeState { nodes: n2, fps: f2, maps: s.maps.update(f, s.maps[f].insert(i as u32, id)) };
            &&& digests_kept(forests, s2)
            &&& roots_match(s2)
        }),
{
    let node = forests[f][i];
    let m = s.maps[f];
    let forest = forests[f];
    assert(forest_consistent(forest));
    let earlier = forest.take(i);
    assert(node_built(node.builder(), earlier) == Ok::<MastNodeView, MastForestError>(node));
    let b = remapped_builder(node, m, dmap)->Ok_0;
    let n = node_built(b, s.nodes)->Ok_0;
    lemma_remapped_digest(node, earlier, i, forest, f, forests, s, dmap);
    let fp = fingerprint_of(decs, s.fps, n.before_enter(), n.after_exit(), n.children(), n.digest())->Ok_0;
    let (n2, f2, id) = merge_node_spec(s.nodes, s.fps, decs, m, dmap, node)->Ok_0;
    let s2 = MergeState { nodes: n2, fps: f2, maps: s.maps.update(f, m.insert(i as u32, id)) };
    match find_fingerprint(s.fps, fp) {
        Some(j) => {
            lemma_find_fingerprint_some(s.fps, fp);
            assert(s.nodes[j as int].digest() == node.digest());
            lemma_kept_after_insert(forests, s, s2, f, i, id);
        },
        None => {
            assert(n2 == s.nodes.push(n));
            assert(f2 == s.fps.push(fp));
            lemma_kept_after_insert(forests, s, s2, f, i, id);
            assert forall|k: int| 0 <= k < s2.fps.len() implies (#[trigger] s2.fps[k]).mast_root
                == s2.nodes[k].digest() by {
                if k < s.fps.len() {
                    assert(s2.fps[k] == s.fps[k]);
                }
            }
        },
    }
}

#[verifier::rlimit(100)]
proof fn lemma_step_digests(
    forests: Seq<Seq<MastNodeView>>,
    decs: Seq<Seq<u8>>,
    idss: Seq<Seq<DecoratorId>>,
    s: MergeState,
    f: int,
    i: int,
    replace: bool,
)
    requires
        all_consistent(forests),
        s.maps.len() == forests.len(),
        digests_kept(forests, s),
        roots_match(s),
        0 <= f < forests.len(),
        0 <= i < forests[f].len(),
        i <= u32::MAX,
        !replace ==> forall|j: u32| j < i ==> #[trigger] s.maps[f].contains_key(j),
        merge_step(forests, decs, idss, s, f, i, replace) is Ok,
    ensures
        digests_kept(forests, merge_step(forests, decs, idss, s, f, i, replace)->Ok_0.0),
        roots_match(merge_step(forests, decs, idss, s, f, i, replace)->Ok_0.0),
        merge_step(forests, decs, idss, s, f, i, replace)->Ok_0.0.maps.len() == forests.len(),
{
    let node = forests[f][i];
    let m = s.maps[f];
    let s2 = merge_step(forests, decs, idss, s, f, i, replace)->Ok_0.0;
    if m.contains_key(i as u32) {
        return;
    }
    let target = if replace && node is External {
        replacement_of(forests, node.digest())
    } else {
        None
    };
    if target is Some {
        let (g, j) = target->0;
        lemma_replacement_some(forests, node.digest());
        assert(forest_consistent(forests[g as int]));
        assert(j as u32 == j);
        if s.maps[g as int].contains_key(j as u32) {
            let t = s.maps[g as int][j as u32];
            lemma_kept_after_insert(forests, s, s2, f, i, t);
        }
        return;
    }
    if replace && !children_mapped(node, m) {
        return;
    }
    if !replace {
        let forest = forests[f];
        assert(forest_consistent(forest));
        assert(node_built(node.builder(), forest.take(i)) == Ok::<MastNodeView, MastForestError>(node));
        assert forall|c: int| 0 <= c < node.children().len() implies m.contains_key(
            #[trigger] node.children()[c].0,
        ) by {
            let ch = node.children()[c];
            assert(ch.index() < i);
            assert(m.contains_key(ch.0));
        }
    }
    lemma_merge_case_digests(forests, decs, s, f, i, id_map(idss[f]));
}

proof fn lemma_pass_forest_digests(
    forests: Seq<Seq<MastNodeView>>,
    decs: Seq<Seq<u8>>,
    idss: Seq<Seq<DecoratorId>>,
    s: MergeState,
    f: int,
    k: nat,
    replace: bool,
)
    requires
        all_consistent(forests),
        s.maps.len() == forests.len(),
        digests_kept(forests, s),
        roots_match(s),
        0 <= f < forests.len(),
        k <= forests[f].len(),
        merge_pass_forest(forests, decs, idss, s, f, k, replace) is Ok,
    ensures
        digests_kept(forests, merge_pass_forest(forests, decs, idss, s, f, k, replace)->Ok_0.0),
        roots_match(merge_pass_forest(forests, decs, idss, s, f, k, replace)->Ok_0.0),
        merge_pass_forest(forests, decs, idss, s, f, k, replace)->Ok_0.0.maps.len() == forests.len(),
    decreases k,
{
    if k > 0 {
        lemma_pass_forest_digests(forests, decs, idss, s, f, (k - 1) as nat, replace);
        lemma_pass_forest_grows(forests, decs, idss, s, f, (k - 1) as nat, replace);
        let s1 = merge_pass_forest(forests, decs, idss, s, f, (k - 1) as nat, replace)->Ok_0.0;
        assert(forest_consistent(forests[f]));
        lemma_step_digests(forests, decs, idss, s1, f, k - 1, replace);
    }
}

proof fn lemma_pass_digests(
    forests: Seq<Seq<MastNodeView>>,
    decs: Seq<Seq<u8>>,
    idss: Seq<Seq<DecoratorId>>,
    s: MergeState,
    nf: nat,
    replace: bool,
)
    requires
        all_consistent(forests),
        s.maps.len() == forests.len(),
        digests_kept(forests, s),
        roots_match(s),
        nf <= forests.len(),
        merge_pass(forests, decs, idss, s, nf, replace) is Ok,
    ensures
        digests_kept(forests, merge_pass(forests, decs, idss, s, nf, replace)->Ok_0.0),
        roots_match(merge_pass(forests, decs, idss, s, nf, replace)->Ok_0.0),
        merge_pass(forests, decs, idss, s, nf, replace)->Ok_0.0.maps.len() == forests.len(),
    decreases nf,
{
    if nf > 0 {
        lemma_pass_digests(forests, decs, idss, s, (nf - 1) as nat, replace);
        let s1 = merge_pass(forests, decs, idss, s, (nf - 1) as nat, replace)->Ok_0.0;
        lemma_pass_forest_digests(forests, decs, idss, s1, nf - 1, forests[nf - 1].len(), replace);
    }
}

proof fn lemma_rounds_digests(
    forests: Seq<Seq<MastNodeView>>,
    decs: Seq<Seq<u8>>,
    idss: Seq<Seq<DecoratorId>>,
    s: MergeState,
    fuel: nat,
)
    requires
        all_consistent(forests),
        s.maps.len() == forests.len(),
        digests_kept(forests, s),
        roots_match(s),
        merge_rounds(forests, decs, idss, s, fuel) is Ok,
    ensures
        digests_kept(forests, merge_rounds(forests, decs, idss, s, fuel)->Ok_0),
        roots_match(merge_rounds(forests, decs, idss, s, fuel)->Ok_0),
        merge_rounds(forests, decs, idss, s, fuel)->Ok_0.maps.len() == forests.len(),
    decreases fuel,
{
    if fuel > 0 {
        lemma_pass_digests(forests, decs, idss, s, forests.len(), true);
        let (s1, p) = merge_pass(forests, decs, idss, s, forests.len(), true)->Ok_0;
        if p {
            lemma_rounds_digests(forests, decs, idss, s1, (fuel - 1) as nat);
        }
    }
}

/// Merging puts every node of every forest, once it has a new id, on a merged node with the
/// same digest.
pub proof fn lemma_merged_nodes_keep_digests(
    forests: Seq<Seq<MastNodeView>>,
    decs: Seq<Seq<u8>>,
    idss: Seq<Seq<DecoratorId>>,
)
    requires
        all_consistent(forests),
        merge_all_nodes_spec(forests, decs, idss) is Ok,
    ensures
        digests_kept(forests, merge_all_nodes_spec(forests, decs, idss)->Ok_0),
{
    let init = initial_state(forests.len());
    lemma_rounds_digests(forests, decs, idss, init, u64::MAX as nat);
    let s = merge_rounds(forests, decs, idss, init, u64::MAX as nat)->Ok_0;
    lemma_pass_digests(forests, decs, idss, s, forests.len(), false);
}

proof fn lemma_merged_roots_contains(
    acc: Seq<MastNodeId>,
    forest_roots: Seq<MastNodeId>,
    node_map: Map<u32, MastNodeId>,
)
    ensures
        forall|x: MastNodeId| acc.contains(x) ==> #[trigger] merged_roots(acc, forest_roots, node_map).contains(x),
        forall|i: int|
            0 <= i < forest_roots.len() ==> merged_roots(acc, forest_roots, node_map).contains(
                node_map[(#[trigger] forest_roots[i]).0],
            ),
    decreases forest_roots.len(),
{
    if forest_roots.len() > 0 {
        let prev = forest_roots.drop_last();
        lemma_merged_roots_contains(acc, prev, node_map);
        let r0 = merged_roots(acc, prev, node_map);
        let x = node_map[forest_roots.last().0];
        let r1 = add_root(r0, x);
        assert forall|y: MastNodeId| r0.contains(y) implies r1.contains(y) by {
            if !r0.contains(x) {
                let k = choose|k: int| 0 <= k < r0.len() && r0[k] == y;
                assert(r1[k] == y);
            }
        }
        if !r0.contains(x) {
            assert(r1[r0.len() as int] == x);
        }
        assert forall|i: int| 0 <= i < forest_roots.len() implies r1.contains(
            node_map[(#[trigger] forest_roots[i]).0],
        ) by {
            if i < forest_roots.len() - 1 {
                assert(prev[i] == forest_roots[i]);
            }
        }
    }
}

proof fn lemma_all_merged_roots_contains(
    roots: Seq<Seq<MastNodeId>>,
    node_maps: Seq<Map<u32, MastNodeId>>,
    f: int,
    i: int,
)
    requires
        0 <= f < roots.len(),
        0 <= i < roots[f].len(),
    ensures
        all_merged_roots(roots, node_maps).contains(node_maps[f][roots[f][i].0]),
    decreases roots.len(),
{
    let prev = roots.drop_last();
    let last = roots.len() - 1;
    lemma_merged_roots_contains(all_merged_roots(prev, node_maps), roots.last(), node_maps[last]);
    if f < last {
        assert(prev[f] == roots[f]);
        lemma_all_merged_roots_contains(prev, node_maps, f, i);
    }
}

/// Each procedure root of each merged forest is mapped to a root of the merged forest that has
/// the same digest (for forests whose nodes are each what their builder makes from the nodes
/// before them, as adding nodes through builders leaves a forest).
pub proof fn lemma_merge_keeps_root_digests(
    forests: Seq<Seq<MastNodeView>>,
    dec_fps: Seq<Seq<Seq<u8>>>,
    roots: Seq<Seq<MastNodeId>>,
    advice: Seq<Seq<(Word, Seq<u64>)>>,
    codes: Seq<Seq<(u64, String)>>,
    f: int,
    i: int,
)
    requires
        all_consistent(forests),
        roots.len() == forests.len(),
        roots_in_forests(roots, forests),
        merge_forests_spec(forests, dec_fps, roots, advice, codes) is Ok,
        0 <= f < roots.len(),
        0 <= i < roots[f].len(),
    ensures
        ({
            let m = merge_forests_spec(forests, dec_fps, roots, advice, codes)->Ok_0;
            let r = roots[f][i];
            &&& spec_map_root(m.root_maps, f, r) is Some
            &&& spec_map_root(m.root_maps, f, r)->0.index() < m.nodes.len()
            &&& m.nodes[spec_map_root(m.root_maps, f, r)->0.index() as int].digest()
                == forests[f][r.index() as int].digest()
            &&& m.roots.contains(spec_map_root(m.root_maps, f, r)->0)
        }),
{
    let (decs, idss) = merge_all_decorators_spec(dec_fps)->Ok_0;
    let st = merge_all_nodes_spec(forests, decs, idss)->Ok_0;
    let r = roots[f][i];
    let ids = Seq::new(forests.len(), |g: int| id_vec(st.maps[g], forests[g].len()));
    lemma_merge_all_nodes_maps_all(forests, decs, idss);
    lemma_merged_nodes_keep_digests(forests, decs, idss);
    lemma_roots_found(ids, roots, f, r);
    assert(roots[f].contains(r)) by {
        assert(roots[f][i] == r);
    }
    assert(r.index() < forests[f].len());
    assert(st.maps[f].contains_key(r.0));
    assert(ids[f][r.index() as int] == Some(st.maps[f][r.0]));
    lemma_all_merged_roots_contains(roots, st.maps, f, i);
}

/// A forest without nodes is consistent, and adding a node through a builder keeps a forest
/// consistent: forests built only through builders are consistent.
pub proof fn lemma_added_consistent(forest: Seq<MastNodeView>, b: MastNodeBuilderView)
    requires
        forest_consistent(forest),
    ensures
        forest_consistent(Seq::<MastNodeView>::empty()),
        forest_consistent(added(forest, node_built(b, forest)).1),
{
    if node_built(b, forest) is Ok && forest.len() < max_nodes() {
        let n = node_built(b, forest)->Ok_0;
        lemma_node_round_trip(b, forest);
        let f2 = forest.push(n);
        assert forall|i: int| 0 <= i < f2.len() implies #[trigger] node_built(
            f2[i].builder(),
            f2.take(i),
        ) == Ok::<MastNodeView, MastForestError>(f2[i]) by {
            if i < forest.len() {
                assert(f2.take(i) =~= forest.take(i));
                assert(f2[i] == forest[i]);
                assert(node_built(forest[i].builder(), forest.take(i)) == Ok::<
                    MastNodeView,
                    MastForestError,
                >(forest[i]));
            } else {
                assert(f2.take(i) =~= forest);
            }
        }
    }
}

/// `a` holds key `k` (by value) with exactly the values `v`.
pub open spec fn has_entry(a: Seq<(Word, Seq<u64>)>, k: Word, v: Seq<u64>) -> bool {
    exists|t: int| 0 <= t < a.len() && (#[trigger] a[t]).0@ == k@ && a[t].1 == v
}

/// No key occurs twice in `a`.
pub open spec fn keys_distinct(a: Seq<(Word, Seq<u64>)>) -> bool {
    forall|t1: int, t2: int| 0 <= t1 < t2 < a.len() ==> (#[trigger] a[t1]).0@ != (#[trigger] a[t2]).0@
}

/// `x` is one of the entries of `a`.
pub open spec fn entry_of(a: Seq<(Word, Seq<u64>)>, x: (Word, Seq<u64>)) -> bool {
    exists|t: int| 0 <= t < a.len() && #[trigger] a[t] == x
}

proof fn lemma_find_key_none(acc: Seq<(Word, Seq<u64>)>, key: Word)
    requires
        find_key(acc, key) is None,
    ensures
        forall|t: int| 0 <= t < acc.len() ==> (#[trigger] acc[t]).0@ != key@,
    decreases acc.len(),
{
    if acc.len() > 0 {
        lemma_find_key_none(acc.drop_last(), key);
        assert forall|t: int| 0 <= t < acc.len() implies (#[trigger] acc[t]).0@ != key@ by {
            if t < acc.len() - 1 {
                assert(acc.drop_last()[t] == acc[t]);
            }
        }
    }
}

proof fn lemma_find_key_some(acc: Seq<(Word, Seq<u64>)>, key: Word)
    requires
        find_key(acc, key) is Some,
    ensures
        find_key(acc, key)->0 < acc.len(),
        acc[find_key(acc, key)->0 as int].0@ == key@,
    decreases acc.len(),
{
    if find_key(acc.drop_last(), key) is Some {
        lemma_find_key_some(acc.drop_last(), key);
    }
}

/// Merging the entries of one advice map into merged entries with distinct keys: on success,
/// keys stay distinct, every earlier entry and every new entry is present with exactly its
/// values, and every merged entry is an earlier or a new one; a collision names the key of a new
/// entry that is already present (earlier or among the new entries) with other values.
proof fn lemma_merge_advice_law(acc: Seq<(Word, Seq<u64>)>, entries: Seq<(Word, Seq<u64>)>)
    requires
        keys_distinct(acc),
    ensures
        match merge_advice_spec(acc, entries) {
            Ok(a) => {
                &&& keys_distinct(a)
                &&& forall|t: int| 0 <= t < acc.len() ==> has_entry(a, (#[trigger] acc[t]).0, acc[t].1)
                &&& forall|j: int| 0 <= j < entries.len() ==> has_entry(a, (#[trigger] entries[j]).0, entries[j].1)
                &&& forall|t: int| 0 <= t < a.len() ==> entry_of(acc, #[trigger] a[t]) || entry_of(entries, a[t])
            },
            Err(e) => exists|j: int|
                0 <= j < entries.len() && e == MastForestError::AdviceMapKeyCollisionOnMerge(
                    (#[trigger] entries[j]).0,
                ) && (exists|x: (Word, Seq<u64>)|
                    (entry_of(acc, x) || entry_of(entries, x)) && x.0@ == entries[j].0@ && x.1
                        != entries[j].1),
        },
    decreases entries.len(),
{
    if entries.len() == 0 {
        match merge_advice_spec(acc, entries) {
            Ok(a) => {
                assert forall|t: int| 0 <= t < acc.len() implies has_entry(a, (#[trigger] acc[t]).0, acc[t].1) by {
                    assert(a[t] == acc[t]);
                }
                assert forall|t: int| 0 <= t < a.len() implies entry_of(acc, #[trigger] a[t]) || entry_of(entries, a[t]) by {
                    assert(acc[t] == a[t]);
                }
            },
            Err(_) => {},
        }
        return;
    }
    let prev = entries.drop_last();
    let last = entries.len() - 1;
    lemma_merge_advice_law(acc, prev);
    assert(entries.last() == entries[last]);
    assert forall|x: (Word, Seq<u64>)| entry_of(prev, x) implies entry_of(entries, x) by {
        let t = choose|t: int| 0 <= t < prev.len() && #[trigger] prev[t] == x;
        assert(entries[t] == x);
    }
    match merge_advice_spec(acc, prev) {
        Err(e) => {
            let j = choose|j: int|
                0 <= j < prev.len() && e == MastForestError::AdviceMapKeyCollisionOnMerge(
                    (#[trigger] prev[j]).0,
                ) && (exists|x: (Word, Seq<u64>)|
                    (entry_of(acc, x) || entry_of(prev, x)) && x.0@ == prev[j].0@ && x.1
                        != prev[j].1);
            assert(entries[j] == prev[j]);
        },
        Ok(a1) => {
            let (k, v) = entries.last();
            match find_key(a1, k) {
                Some(jj) => {
                    lemma_find_key_some(a1, k);
                    if a1[jj as int].1 == v {
                        assert forall|j: int| 0 <= j < entries.len() implies has_entry(a1, (#[trigger] entries[j]).0, entries[j].1) by {
                            if j < last {
                                assert(entries[j] == prev[j]);
                                assert(has_entry(a1, prev[j].0, prev[j].1));
                            } else {
                                assert(a1[jj as int].0@ == k@);
                            }
                        }
                        assert forall|t: int| 0 <= t < a1.len() implies entry_of(acc, #[trigger] a1[t]) || entry_of(entries, a1[t]) by {
                            assert(entry_of(acc, a1[t]) || entry_of(prev, a1[t]));
                        }
                    } else {
                        let x = a1[jj as int];
                        assert(entry_of(acc, x) || entry_of(prev, x));
                        assert(entry_of(acc, x) || entry_of(entries, x));
                        assert(merge_advice_spec(acc, entries) == Err::<Seq<(Word, Seq<u64>)>, MastForestError>(
                            MastForestError::AdviceMapKeyCollisionOnMerge(entries[last].0),
                        ));
                    }
                },
                None => {
                    lemma_find_key_none(a1, k);
                    let a2 = a1.push((k, v));
                    assert forall|t1: int, t2: int| 0 <= t1 < t2 < a2.len() implies (#[trigger] a2[t1]).0@
                        != (#[trigger] a2[t2]).0@ by {
                        assert(a2[t1] == a1[t1]);
                        if t2 < a1.len() {
                            assert(a2[t2] == a1[t2]);
                        }
                    }
                    assert forall|t: int| 0 <= t < acc.len() implies has_entry(a2, (#[trigger] acc[t]).0, acc[t].1) by {
                        assert(has_entry(a1, acc[t].0, acc[t].1));
                        let u = choose|u: int| 0 <= u < a1.len() && (#[trigger] a1[u]).0@ == acc[t].0@ && a1[u].1 == acc[t].1;
                        assert(a2[u] == a1[u]);
                    }
                    assert forall|j: int| 0 <= j < entries.len() implies has_entry(a2, (#[trigger] entries[j]).0, entries[j].1) by {
                        if j < last {
                            assert(entries[j] == prev[j]);
                            assert(has_entry(a1, prev[j].0, prev[j].1));
                            let u = choose|u: int| 0 <= u < a1.len() && (#[trigger] a1[u]).0@ == prev[j].0@ && a1[u].1 == prev[j].1;
                            assert(a2[u] == a1[u]);
                        } else {
                            assert(a2[a1.len() as int] == (k, v));
                        }
                    }
                    assert forall|t: int| 0 <= t < a2.len() implies entry_of(acc, #[trigger] a2[t]) || entry_of(entries, a2[t]) by {
                        if t < a1.len() {
                            assert(a2[t] == a1[t]);
                            assert(entry_of(acc, a1[t]) || entry_of(prev, a1[t]));
                        } else {
                            assert(entries[last] == a2[t]);
                        }
                    }
                },
            }
        },
    }
}

/// What merging the advice maps of several forests gives. On success the merged map has
/// distinct keys, holds every entry of every input map with exactly its values, and nothing
/// else; so the merge succeeds only if no key occurs with two different value lists. A refusal
/// is `AdviceMapKeyCollisionOnMerge` with a key that two input entries share with different
/// values.
pub proof fn lemma_advice_maps_merge(maps: Seq<Seq<(Word, Seq<u64>)>>)
    ensures
        match merge_all_advice_spec(maps) {
            Ok(a) => {
                &&& keys_distinct(a)
                &&& forall|f: int, j: int|
                    0 <= f < maps.len() && 0 <= j < maps[f].len() ==> has_entry(
                        a,
                        (#[trigger] maps[f][j]).0,
                        maps[f][j].1,
                    )
                &&& forall|t: int|
                    #![trigger a[t]]
                    0 <= t < a.len() ==> exists|f: int| 0 <= f < maps.len() && entry_of(#[trigger] maps[f], a[t])
            },
            Err(e) => exists|f1: int, j1: int, f2: int, j2: int|
                0 <= f1 < maps.len() && 0 <= j1 < maps[f1].len() && 0 <= f2 < maps.len() && 0 <= j2
                    < maps[f2].len() && e == MastForestError::AdviceMapKeyCollisionOnMerge(
                    (#[trigger] maps[f2][j2]).0,
                ) && (#[trigger] maps[f1][j1]).0@ == maps[f2][j2].0@ && maps[f1][j1].1
                    != maps[f2][j2].1,
        },
    decreases maps.len(),
{
    if maps.len() == 0 {
        return;
    }
    let prev = maps.drop_last();
    let last = maps.len() - 1;
    lemma_advice_maps_merge(prev);
    assert(maps.last() == maps[last]);
    match merge_all_advice_spec(prev) {
        Err(e) => {
            let (f1, j1, f2, j2) = choose|f1: int, j1: int, f2: int, j2: int|
                0 <= f1 < prev.len() && 0 <= j1 < prev[f1].len() && 0 <= f2 < prev.len() && 0 <= j2
                    < prev[f2].len() && e == MastForestError::AdviceMapKeyCollisionOnMerge(
                    (#[trigger] prev[f2][j2]).0,
                ) && (#[trigger] prev[f1][j1]).0@ == prev[f2][j2].0@ && prev[f1][j1].1
                    != prev[f2][j2].1;
            assert(maps[f1] == prev[f1] && maps[f2] == prev[f2]);
            assert(maps[f1][j1] == prev[f1][j1] && maps[f2][j2] == prev[f2][j2]);
        },
        Ok(acc) => {
            let entries = maps[last];
            lemma_merge_advice_law(acc, entries);
            match merge_advice_spec(acc, entries) {
                Ok(a) => {
                    assert forall|f: int, j: int|
                        0 <= f < maps.len() && 0 <= j < maps[f].len() implies has_entry(
                        a,
                        (#[trigger] maps[f][j]).0,
                        maps[f][j].1,
                    ) by {
                        if f < last {
                            assert(maps[f] == prev[f]);
                            assert(has_entry(acc, prev[f][j].0, prev[f][j].1));
                            let u = choose|u: int| 0 <= u < acc.len() && (#[trigger] acc[u]).0@ == prev[f][j].0@ && acc[u].1 == prev[f][j].1;
                            assert(has_entry(a, acc[u].0, acc[u].1));
                        } else {
                            assert(has_entry(a, entries[j].0, entries[j].1));
                        }
                    }
                    assert forall|t: int| #![trigger a[t]] 0 <= t < a.len() implies exists|f: int| 0 <= f < maps.len() && entry_of(#[trigger] maps[f], a[t]) by {
                        if entry_of(acc, a[t]) {
                            let u = choose|u: int| 0 <= u < acc.len() && #[trigger] acc[u] == a[t];
                            let f = choose|f: int| 0 <= f < prev.len() && entry_of(#[trigger] prev[f], acc[u]);
                            assert(maps[f] == prev[f]);
                        } else {
                            assert(entry_of(maps[last], a[t]));
                        }
                    }
                },
                Err(e) => {
                    let j = choose|j: int|
                        0 <= j < entries.len() && e == MastForestError::AdviceMapKeyCollisionOnMerge(
                            (#[trigger] entries[j]).0,
                        ) && (exists|x: (Word, Seq<u64>)|
                            (entry_of(acc, x) || entry_of(entries, x)) && x.0@ == entries[j].0@ && x.1
                                != entries[j].1);
                    let x = choose|x: (Word, Seq<u64>)|
                        (entry_of(acc, x) || entry_of(entries, x)) && x.0@ == entries[j].0@ && x.1
                            != entries[j].1;
                    if entry_of(acc, x) {
                        let u = choose|u: int| 0 <= u < acc.len() && #[trigger] acc[u] == x;
                        let f = choose|f: int| 0 <= f < prev.len() && entry_of(#[trigger] prev[f], acc[u]);
                        let jj = choose|jj: int| 0 <= jj < prev[f].len() && #[trigger] prev[f][jj] == x;
                        assert(maps[f] == prev[f]);
                        assert(maps[f][jj] == x);
                        assert(maps[last][j] == entries[j]);
                    } else {
                        let jj = choose|jj: int| 0 <= jj < entries.len() && #[trigger] entries[jj] == x;
                        assert(maps[last][jj] == x);
                        assert(maps[last][j] == entries[j]);
                    }
                },
            }
        },
    }
}

} // verus!
