# ternary-memory-pool

Memory pool allocators for packed ternary data, written in Rust and verified with Verus. No
memory is touched: the allocators decide which offsets are in use.

- `BlockAllocator`: blocks of one size from a free list; the block freed last is reused first.
- `BuddyAllocator`: power-of-two blocks that split on demand and join with their buddies when
  freed.
- `TernaryAllocator`: regions of whole 16-trit words, first fit, joined with adjacent free
  regions when freed.
- `MemoryPool`: a buddy allocator with counters, `PoolStatistics`.

## Layout

- `src/block.rs`, `src/buddy.rs`, `src/ternary.rs`, `src/pool.rs`, `src/statistics.rs`: the
  allocators and their contracts. Each contract speaks of the allocator's view, a mathematical
  state, and of its invariant `wf`.
- `src/buddy_state.rs`: the state of a buddy allocator; `src/tiling.rs` and `src/arith.rs`: the
  blocks that tile an arena, and the arithmetic of orders and buddies.
- `src/regions.rs`: lists of regions; `src/lists.rs`, `src/totals.rs`: lists and sums.
- `src/buddy_laws.rs`, `src/ternary_laws.rs`, `src/pool_laws.rs`, and the end of `src/block.rs`:
  the laws, such as that freeing undoes allocating, that live blocks do not overlap, and that an
  arena with nothing allocated is one free block.
- `app/`: the pool's ratios as floating-point numbers, and `Display` for its statistics.
- `tests/`: the allocators at work.
