# oktree

A fast octree over unsigned integer coordinates, written in Verus: the
library's behaviour is stated in `requires` / `ensures` contracts and proved.

Elements are points (`Position`) or boxes (`Volume`). They are kept in a flat
pool of numbered slots and addressed by `ElementId`; the nodes of the tree live
in a second pool, addressed by `NodeId`. Removed slots are only marked, and
later insertions reuse them, the most recently freed first.

## Layout

- `src/bounding.rs`: the coordinate types (`Unsigned`, `TUVec3`, `Aabb`) and the
  geometry of boxes and their eight children.
- `src/pool.rs`: the slot pool and its bookkeeping invariant.
- `src/node.rs`: nodes (empty, leaf, branch).
- `src/tree.rs`: the `Octree`, its well-formedness, search and insertion.
- `src/placement.rs`, `src/paths.rs`: the proofs that insertion places an
  element where searches find it.
- `src/removal.rs`: removal, with the collapse of emptied branches.
- `src/walk.rs`: walks through the tree that go on into the branches a
  predicate accepts, with a fixed-size stack.
- `src/intersect_with.rs`: queries by a predicate on branch and element boxes.
- `src/stack.rs`: the work lists of insertion and removal, held in a
  `smallvec::SmallVec`, and the stack of the walks, a `heapless::Vec`.
- `src/text.rs`: decimal numbers for the library's messages.
- `app/lib.rs`: the Bevy integration: ray casts and intersections with Bevy's
  floating-point volumes, handed to the library's walks.

## Main properties

- Every mutating operation keeps the tree well formed.
- `find` returns a live element whose box holds the point, or nothing.
- After an insertion that the tree accepts, every point of the inserted box
  finds the new element and every other point of the root's box finds what it
  found before, as long as the node pool still numbers its slots within
  `u32` (fewer than `u32::MAX - 8` slots after the insertion). Into a tree
  whose root is empty, an element that meets the root's box always goes in,
  without new nodes.
- A removal leaves no branch with eight empty children that was not already
  there: emptied branches collapse, up the tree.
- After a removal, the points that found the removed element find nothing and
  every other point finds what it found before; removing an element right after
  inserting it gives back every search of the root's box.
- `clear` leaves a single empty root: no point finds anything.
- `restore_garbage` brings the removed elements back into their slots, the
  most recently removed first, placing each in the tree again as an insertion
  would; it stops, with the insertion's error, at the first one that cannot be
  placed.
