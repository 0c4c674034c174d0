# prolly

A prolly tree (probabilistic B-tree) over a content-addressed chunk store,
written in Verus: every operation of the library carries a contract over a
mathematical model of the tree, and Verus proves the code against it.

## Layout

- `src/common.rs`, `src/error.rs`, `src/keys.rs`: configuration, errors,
  byte-string key order.
- `src/codec.rs`: little- and big-endian integer codecs with their proofs.
- `src/chunk.rs`: Blake3 hashing (through the `blake3` crate) and node chunks.
- `src/node/`: node types, their models, and the byte encoding of nodes
  (`decode` inverts `encode`).
- `src/store/`: the `ChunkStore` interface, an in-memory store, and the
  single-file format (`write_prly_tree_v2` / `read_prly_tree_v2`), whose
  reader gives back exactly what the writer was given.
- `src/tree/`: the model of a stored tree (`model.rs`, `view.rs`), node I/O
  and value chunking (`io.rs`, through the `fastcdc` crate), insertion and
  deletion with splits, merges and rebalancing, cursors, range scans, and
  the hierarchy walk.
- `src/diff.rs`, `src/gc.rs`: differences between two versions, and
  garbage collection of chunks no live version reaches.
- `app/`: what stays outside the verified library: JSON metadata (serde),
  timestamps (chrono), and the error type with `Display` (thiserror),
  around saving and loading a tree as file bytes.
- `tests/`: executable tests of the library.

## Main properties proved

- A tree's view is a map from keys to values; `insert`, `delete` and
  `insert_batch` change it exactly as `Map::insert` / `Map::remove` do, and
  `get` and `count_all_items` read it.
- Old versions stay readable: a root reachable before an update still holds
  the same map afterwards (`law_version_persists`).
- Applying the differences `diff` reports to the left map gives the right
  map (`law_diff_apply`); for two trees whose nodes line up (same
  boundaries level by level, `roots_aligned`) the list is exact: one entry
  per key whose value differs, in key order, and the difference the other
  way is the same list with its sides exchanged (`law_diff_exact_swap`,
  `law_roots_aligned_symmetric`).
- Garbage collection keeps every chunk reachable from the live roots, so
  each live version keeps its map (`law_gc_keeps_live_trees`).
- Scans and cursors return exactly the entries of the range asked for, in
  order; a full hierarchy walk lists every key in order
  (`law_hierarchy_lists_keys`).
- Reading the bytes a write produced gives back the chunks and metadata
  written.
- On a store whose calls succeed (`ChunkStore::reliable`, true of the
  in-memory store), `insert`, `delete`, `insert_batch`, `gc` and the reads
  succeed, unless a write was refused (the store's `refusals` count grows)
  or a stated limit is reached (a count past `u64::MAX`, a tree of height
  255, or, for delete, an internal node with a single child).
- Inserts split a node exactly when it would hold more than
  `target_fanout` entries, at the midpoint; deletes fix a child that fell
  under `min_fanout` by borrowing from or merging with a neighbour.
- Large values are cut at the `fastcdc` boundaries and each piece is
  stored under its Blake3 digest.
