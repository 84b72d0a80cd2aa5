# miden_mast

Verified building blocks of a Merkelized abstract syntax tree (MAST) forest, written in Verus.

- `src/csr.rs`, `src/decorator_storage.rs`, `src/debuginfo.rs`: decorators per operation per
  node in a two-level compressed sparse row layout, with the model they are verified against
  and the laws of appending and reading.
- `src/node_decorator_storage.rs`: `before_enter` / `after_exit` decorators per node.
- `src/op_padding.rs`, `src/decorator_iter.rs`: raw and padded operation indices of basic
  blocks, the decorator iterators built on them, and the iterator over a block's operations
  and decorators in execution order (generic over the operation type).
- `src/mast_forest.rs`, `src/join_node.rs`, `src/loop_node.rs`, `src/call_node.rs`,
  `src/external_node.rs`: control-flow nodes, their builders and the forest they are added to;
  digests come from RPO-256 (`miden-crypto`).
- `src/node_fingerprint.rs`: node fingerprints (BLAKE3 over decorator fingerprints), for
  control-flow nodes and for basic blocks (given their batch layout and assertion opcodes).
- `src/merger.rs`: merging forests: advice maps (a key with other values is a collision),
  decorators deduplicated by fingerprint, error codes, then nodes: every node after its
  children, remapped onto the merged forest and deduplicated by fingerprint, and an external
  node whose digest is that of a non-external node of some forest replaced by that node; last,
  roots mapped and deduplicated.
- `src/root_map.rs`: where the procedure roots of merged forests went.

Not modelled: basic-block, split and dyn nodes as members of a forest (the operation set, its
batching and those node kinds live outside this crate). A forest holds its nodes; its
decorators' fingerprints, procedure roots, advice map and error codes are handed to the merge
beside it.
