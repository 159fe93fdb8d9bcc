# charcoal

Arena-allocated trees whose nodes live in a `Vec` and link to each other by index. Their
operations are verified by Verus against a mathematical model of the tree: the parent, the ordered
children and the payload of every node. Most operations are specified exactly; the recursive
removal states the result of each of its steps and what the whole removal keeps, not the exact
tree it leaves.

- `src/shape.rs` — the shape invariant shared by all trees and the lemmas about removing keys.
- `src/storage.rs` — `Storage` / `ListStorage` over `Vec`, with the index fix-ups that removing
  or inserting an element calls for.
- `src/binary_tree`, `src/full_tree` (with `octree` and `quadtree` on top), `src/freeform_tree`
  — the trees, their node references, and the laws that relate their operations.
- `src/traversal` — visitors, traversables, one-step traversal, the recursive removal
  algorithm and the laws of cursor movement.
- `app/` — the loops that drive an arbitrary visitor until it stops.
