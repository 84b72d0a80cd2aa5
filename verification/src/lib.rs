//! Parts of a Merkelized abstract syntax tree (MAST) forest: the compressed-sparse-row
//! indices from nodes to operations to decorators, the node-level decorator storage,
//! padding-aware operation index translation, the decorator iterators of basic blocks, the
//! control-flow nodes (join, loop, call, external) with their builders and digests, node
//! fingerprints, the merging of forests, and the root map of merged forests.
use vstd::prelude::*;

pub mod call_node;
pub mod csr;
pub mod debuginfo;
pub mod decorator_iter;
pub mod decorator_storage;
pub mod external_node;
pub mod ids;
pub mod join_node;
pub mod loop_node;
pub mod mast_forest;
pub mod merger;
pub mod node_decorator_storage;
pub mod node_fingerprint;
pub mod op_padding;
pub mod root_map;

verus! {

} // verus!
