//! Where the procedure roots of merged forests went: for each input forest, a map from the
//! id a root had in that forest to the id it has in the merged forest.
use vstd::prelude::*;

use std::collections::BTreeMap;

use crate::ids::MastNodeId;

verus! {

broadcast use vstd::std_specs::btree::group_btree_axioms, vstd::laws_cmp::group_laws_cmp;

/// The root map of one forest: each root of `roots` (keyed by its index in that forest) goes to
/// the id that `ids` gives it in the merged forest.
pub open spec fn roots_map(ids: Seq<Option<MastNodeId>>, roots: Seq<MastNodeId>) -> Map<
    u32,
    MastNodeId,
> {
    Map::new(
        |k: u32| exists|i: int| 0 <= i < roots.len() && #[trigger] roots[i].0 == k,
        |k: u32| ids[k as int]->0,
    )
}

/// Every root of `roots` has an entry in `ids`.
pub open spec fn roots_mapped(ids: Seq<Option<MastNodeId>>, roots: Seq<MastNodeId>) -> bool {
    forall|i: int|
        0 <= i < roots.len() ==> (#[trigger] roots[i]).index() < ids.len() && ids[roots[i].index()
            as int] is Some
}

/// The root maps of all forests: one per forest, in order.
pub open spec fn all_roots_maps(
    id_maps: Seq<Seq<Option<MastNodeId>>>,
    roots: Seq<Seq<MastNodeId>>,
) -> Seq<Map<u32, MastNodeId>> {
    Seq::new(roots.len(), |f: int| roots_map(id_maps[f], roots[f]))
}

/// Every procedure root of every merged forest is found by `map_root`, at the id that the
/// forest's node id map gives it; an id that is not a root of that forest, or a forest index
/// past the last forest, finds nothing.
pub proof fn lemma_roots_found(
    id_maps: Seq<Seq<Option<MastNodeId>>>,
    roots: Seq<Seq<MastNodeId>>,
    forest_index: int,
    id: MastNodeId,
)
    requires
        id_maps.len() >= roots.len(),
    ensures
        spec_map_root(all_roots_maps(id_maps, roots), forest_index, id) == (if 0 <= forest_index
            < roots.len() && roots[forest_index].contains(id) {
            Some(id_maps[forest_index][id.index() as int]->0)
        } else {
            None::<MastNodeId>
        }),
{
    if 0 <= forest_index < roots.len() {
        let fr = roots[forest_index];
        if fr.contains(id) {
            let i = choose|i: int| 0 <= i < fr.len() && fr[i] == id;
            assert(fr[i].0 == id.0);
        } else {
            if exists|i: int| 0 <= i < fr.len() && #[trigger] fr[i].0 == id.0 {
                let i = choose|i: int| 0 <= i < fr.len() && #[trigger] fr[i].0 == id.0;
                assert(fr[i] == id);
            }
        }
    }
}

/// What `map_root` gives for forest `forest_index` and root `root`.
pub open spec fn spec_map_root(
    maps: Seq<Map<u32, MastNodeId>>,
    forest_index: int,
    root: MastNodeId,
) -> Option<MastNodeId> {
    if 0 <= forest_index < maps.len() && maps[forest_index].contains_key(root.0) {
        Some(maps[forest_index][root.0])
    } else {
        None
    }
}

/// For each merged forest, the new id of each of its procedure roots.
pub struct MastForestRootMap {
    root_maps: Vec<BTreeMap<u32, MastNodeId>>,
}

impl View for MastForestRootMap {
    type V = Seq<Map<u32, MastNodeId>>;

    closed spec fn view(&self) -> Seq<Map<u32, MastNodeId>> {
        Seq::new(self.root_maps@.len(), |f: int| self.root_maps@[f]@)
    }
}

impl MastForestRootMap {
    /// Builds the root maps from the node id map of each forest (`id_maps[f][n]` is the new id
    /// of node `n` of forest `f`, if it has one) and the procedure roots of each forest.
    ///
    /// Every root must have a new id.
    pub fn from_node_id_map(
        id_maps: Vec<Vec<Option<MastNodeId>>>,
        procedure_roots: Vec<Vec<MastNodeId>>,
    ) -> (map: Self)
        requires
            id_maps@.len() >= procedure_roots@.len(),
            forall|f: int|
                0 <= f < procedure_roots@.len() ==> roots_mapped(
                    #[trigger] id_maps@[f]@,
                    procedure_roots@[f]@,
                ),
        ensures
            map@ == all_roots_maps(
                Seq::new(id_maps@.len(), |f: int| id_maps@[f]@),
                Seq::new(procedure_roots@.len(), |f: int| procedure_roots@[f]@),
            ),
    {
        let ghost ids = Seq::new(id_maps@.len(), |f: int| id_maps@[f]@);
        let ghost roots = Seq::new(procedure_roots@.len(), |f: int| procedure_roots@[f]@);
        let mut root_maps: Vec<BTreeMap<u32, MastNodeId>> = Vec::new();
        let mut f: usize = 0;
        while f < procedure_roots.len()
            invariant
                f <= procedure_roots@.len(),
                id_maps@.len() >= procedure_roots@.len(),
                forall|g: int|
                    0 <= g < procedure_roots@.len() ==> roots_mapped(
                        #[trigger] id_maps@[g]@,
                        procedure_roots@[g]@,
                    ),
                ids == Seq::new(id_maps@.len(), |g: int| id_maps@[g]@),
                roots == Seq::new(procedure_roots@.len(), |g: int| procedure_roots@[g]@),
                root_maps@.len() == f,
                forall|g: int| 0 <= g < f ==> (#[trigger] root_maps@[g])@ == roots_map(ids[g], roots[g]),
            decreases procedure_roots@.len() - f,
        {
            let forest_roots = &procedure_roots[f];
            let forest_ids = &id_maps[f];
            let ghost fr = forest_roots@;
            let ghost fi = forest_ids@;
            assert(roots_mapped(fi, fr));
            let mut map: BTreeMap<u32, MastNodeId> = BTreeMap::new();
            let mut j: usize = 0;
            while j < forest_roots.len()
                invariant
                    j <= fr.len(),
                    fr == forest_roots@,
                    fi == forest_ids@,
                    roots_mapped(fi, fr),
                    map@ == roots_map(fi, fr.take(j as int)),
                decreases fr.len() - j,
            {
                let root = forest_roots[j];
                proof {
                    assert(fr[j as int] == root);
                }
                let new_id = forest_ids[root.0 as usize].unwrap();
                map.insert(root.0, new_id);
                proof {
                    assert(fr[j as int] == root);
                    assert(map@ =~= roots_map(fi, fr.take(j + 1))) by {
                        assert forall|k: u32| #[trigger] map@.contains_key(k) == roots_map(fi, fr.take(j + 1)).contains_key(k) by {
                            if k == root.0 {
                                assert(fr.take(j + 1)[j as int].0 == k);
                            }
                            if roots_map(fi, fr.take(j + 1)).contains_key(k) {
                                let i = choose|i: int| 0 <= i < j + 1 && #[trigger] fr.take(j + 1)[i].0 == k;
                                if i < j {
                                    assert(fr.take(j as int)[i].0 == k);
                                }
                            }
                            if roots_map(fi, fr.take(j as int)).contains_key(k) {
                                let i = choose|i: int| 0 <= i < j && #[trigger] fr.take(j as int)[i].0 == k;
                                assert(fr.take(j + 1)[i].0 == k);
                            }
                        }
                    }
                }
                j = j + 1;
            }
            proof {
                assert(fr.take(fr.len() as int) =~= fr);
                assert(ids[f as int] == fi);
                assert(roots[f as int] == fr);
            }
            root_maps.push(map);
            f = f + 1;
        }
        let result = MastForestRootMap { root_maps };
        proof {
            assert(result@ =~= all_roots_maps(ids, roots));
        }
        result
    }

    /// Maps the given root to its new location in the merged forest, if such a mapping exists.
    ///
    /// Every root of the map's corresponding forest is contained in the map.
    pub fn map_root(&self, forest_index: usize, root: &MastNodeId) -> (r: Option<MastNodeId>)
        ensures
            r == spec_map_root(self@, forest_index as int, *root),
    {
        if forest_index < self.root_maps.len() {
            match self.root_maps[forest_index].get(&root.0) {
                Some(id) => Some(*id),
                None => None,
            }
        } else {
            None
        }
    }
}

} // verus!
