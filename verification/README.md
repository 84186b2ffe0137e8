# gc_heap

Heaps of 64-bit words addressed through block tables, with three collectors,
verified with Verus:

- `OnceAndDoneHeap` hands out each word once and never reclaims any.
- `CopyingHeap` has two halves; when it runs out of block numbers or words it
  copies the blocks that a `Tracer` reports as reachable into the other half.
- `GenerationalHeap` copies young blocks between two generation 0 halves and
  moves a block to a pair of generation 1 halves once it has been copied
  `MAX_COPIES` times; generation 1 is collected only when it is full. A
  collection copies the blocks the tracer reports and leaves the table
  entries of the other blocks in place.

Layout of `src/`:

- `pointer.rs`: `Pointer`, `HeapError` and the `Tracer` trait.
- `block_table.rs`: the block table and the spec functions for addresses,
  free block numbers and allocated blocks.
- `ram_heap.rs`: a bump-allocated array of words and block copying.
- `once_and_done.rs`, `copying.rs`, `generational.rs`: the three heaps, their
  invariants, exact contracts and the laws they satisfy (the `law_*` proof
  functions).

The tests under `tests/` run the heaps with a tracer that holds the pointers a
program still uses.
