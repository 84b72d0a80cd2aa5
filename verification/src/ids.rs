//! Identifiers of nodes and decorators.
use vstd::prelude::*;

use std::collections::BTreeMap;

verus! {

/// Identifier of a node in a MAST forest: a dense, 0-based `u32` index.
#[derive(Clone, Copy, Debug, PartialEq, Eq, PartialOrd, Ord, Hash, Structural)]
pub struct MastNodeId(pub u32);

/// Identifier of a decorator in a MAST forest: a dense, 0-based `u32` index.
#[derive(Clone, Copy, Debug, PartialEq, Eq, PartialOrd, Ord, Hash, Structural)]
pub struct DecoratorId(pub u32);

broadcast use vstd::std_specs::btree::group_btree_axioms, vstd::laws_cmp::group_laws_cmp;

/// Where `id` goes under `remapping` (keyed by node index): its entry, or `id` itself when it
/// has none.
pub open spec fn remapped(id: MastNodeId, remapping: Map<u32, MastNodeId>) -> MastNodeId {
    if remapping.contains_key(id.0) {
        remapping[id.0]
    } else {
        id
    }
}

impl DecoratorId {
    /// The index that this identifier stands for.
    pub open spec fn index(self) -> nat {
        self.0 as nat
    }
}

impl MastNodeId {
    /// The index that this identifier stands for.
    pub open spec fn index(self) -> nat {
        self.0 as nat
    }

    /// Makes an identifier from a raw index, without checking it against any forest.
    pub fn new_unchecked(value: u32) -> (id: MastNodeId)
        ensures
            id.index() == value,
    {
        MastNodeId(value)
    }

    /// The identifier as a `usize` index.
    pub fn to_usize(self) -> (r: usize)
        ensures
            r == self.index(),
    {
        self.0 as usize
    }

    /// The identifier that `remapping` (keyed by node index) gives this one, or this one when it
    /// has no entry.
    pub fn remap(self, remapping: &BTreeMap<u32, MastNodeId>) -> (r: MastNodeId)
        ensures
            r == remapped(self, remapping@),
    {
        match remapping.get(&self.0) {
            Some(id) => *id,
            None => self,
        }
    }

    /// The identifier as a `u32`.
    pub fn as_u32(self) -> (r: u32)
        ensures
            r == self.index(),
    {
        self.0
    }
}

} // verus!
