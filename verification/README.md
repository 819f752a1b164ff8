# lore_revision

Staging of single paths into a revision tree, from facts that the caller
already knows. No file system is ever looked at: every component of the path
but the last is a directory, made if it is missing, and the last one is a leaf
whose content address, size and mode the caller brings.

Beside leaves, directories can be staged, and paths can be deleted and moved.
A delete is a mark: the node stays where it is, hidden, and staging the same
path again brings it back if its kind fits. A move keeps the node.

## Layout

- `src/path.rs` splits a path into names.
- `src/node.rs`, `src/errors.rs` hold the records and the errors.
- `src/walk.rs` decides, step by step, what is done for each component. It
  touches no tree: it gives out actions and takes events.
- `src/state.rs` is a tree in memory that performs the actions.
- `src/direct_write.rs` has the calls: `stage_leaf_from_facts`,
  `stage_directory_from_facts`, `stage_delete_from_facts`,
  `stage_move_from_facts` and `find_node_link`.
- `src/tree.rs` and `src/relocate.rs` say what all of this means, on a
  mathematical tree.
- `src/laws.rs` and `src/path.rs` state what holds of it as a whole. The proofs
  rest on `src/course.rs`, `src/frame.rs`, `src/lookup.rs` and
  `src/staging.rs`.
- `app/` runs the walk on a tree that lives in a store and is waited for.

Names are known by a 64-bit hash, which the caller supplies as a function.
