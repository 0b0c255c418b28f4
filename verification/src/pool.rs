//! A memory pool: a buddy allocator that counts what it does.

use crate::buddy::BuddyAllocator;
use crate::buddy_laws;
use crate::buddy_state;
use crate::buddy_state::BuddyState;
use crate::statistics::PoolStatistics;
use crate::totals;
use vstd::arithmetic::power2::*;
use vstd::prelude::*;

verus! {

/// The mathematical state of a memory pool.
#[verifier::ext_equal]
pub struct PoolState {
    /// The blocks.
    pub buddy: BuddyState,
    /// The counters.
    pub stats: PoolStatistics,
}

impl PoolState {
    /// The invariant: the counters agree with the blocks, the peak is at least what is allocated
    /// now and at most the arena, and the fragmentation count is the number of free regions.
    pub open spec fn wf(self) -> bool {
        &&& self.buddy.wf()
        &&& self.stats.current_allocations == self.buddy.live.len()
        &&& self.stats.total_allocations == self.stats.total_deallocations
            + self.stats.current_allocations
        &&& self.buddy.live_bytes() <= self.stats.peak_allocated_bytes <= self.buddy.arena_bytes()
        &&& self.stats.peak_allocated_bytes <= self.stats.total_allocated_bytes
        &&& self.stats.fragmentation_count == self.buddy.free_regions()
    }

    /// Whether the counters have room for one more request of `size` bytes.
    pub open spec fn has_room(self, size: nat) -> bool {
        &&& self.stats.total_allocations < u64::MAX
        &&& self.stats.total_allocated_bytes + self.buddy.request_bytes(size) <= usize::MAX
    }

    /// The state after a request for `size` bytes was served.
    pub open spec fn allocated(self, size: nat) -> PoolState {
        let buddy = self.buddy.allocated(size);
        PoolState {
            buddy,
            stats: PoolStatistics {
                total_allocations: (self.stats.total_allocations + 1) as u64,
                current_allocations: (self.stats.current_allocations + 1) as usize,
                total_allocated_bytes: (self.stats.total_allocated_bytes + self.buddy.request_bytes(
                    size,
                )) as usize,
                peak_allocated_bytes: if buddy.live_bytes() > self.stats.peak_allocated_bytes {
                    buddy.live_bytes() as usize
                } else {
                    self.stats.peak_allocated_bytes
                },
                fragmentation_count: buddy.free_regions() as usize,
                ..self.stats
            },
        }
    }

    /// The state after the live block at `offset` was freed.
    pub open spec fn freed(self, offset: usize) -> PoolState {
        let buddy = self.buddy.freed(offset);
        PoolState {
            buddy,
            stats: PoolStatistics {
                total_deallocations: (self.stats.total_deallocations + 1) as u64,
                current_allocations: (self.stats.current_allocations - 1) as usize,
                fragmentation_count: buddy.free_regions() as usize,
                ..self.stats
            },
        }
    }
}

/// A memory pool over a buddy allocator.
///
/// Provides high-level alloc/dealloc and statistics.
#[derive(Debug)]
pub struct MemoryPool {
    buddy: BuddyAllocator,
    stats: PoolStatistics,
    /// Bytes that are allocated now.
    live_bytes: usize,
}

impl View for MemoryPool {
    type V = PoolState;

    closed spec fn view(&self) -> PoolState {
        PoolState { buddy: self.buddy@, stats: self.stats }
    }
}

impl MemoryPool {
    /// The parts agree with each other.
    pub closed spec fn parts_agree(&self) -> bool {
        &&& self.buddy.wf()
        &&& self.live_bytes == self.buddy@.live_bytes()
    }

    /// The invariant of the pool.
    pub open spec fn wf(&self) -> bool {
        &&& self@.wf()
        &&& self.parts_agree()
    }

    /// Create a pool with the given arena size (power of two) and smallest block.
    pub fn new(arena_size: usize, min_block: usize) -> (pool: Self)
        requires
            is_pow2(arena_size as int),
            is_pow2(min_block as int),
            arena_size >= min_block,
        ensures
            pool.wf(),
            pool@.buddy == BuddyState::fresh(
                crate::arith::ceil_order(min_block as nat, 0),
                crate::arith::ceil_order(arena_size as nat, 0),
            ),
            pool@.buddy.arena_bytes() == arena_size,
            pow2(pool@.buddy.max_order) == arena_size,
            pow2(pool@.buddy.min_order) == min_block,
            pool@.buddy.free.len() == pool@.buddy.max_order + 1,
            pool@.buddy.free[pool@.buddy.max_order as int] == seq![0usize],
            forall|o: int|
                0 <= o < pool@.buddy.max_order ==> (#[trigger] pool@.buddy.free[o]).len() == 0,
            pool@.buddy.live == Map::<usize, usize>::empty(),
            pool@.stats == (PoolStatistics {
                total_allocations: 0,
                total_deallocations: 0,
                current_allocations: 0,
                total_allocated_bytes: 0,
                peak_allocated_bytes: 0,
                fragmentation_count: 1,
            }),
    {
        let buddy = BuddyAllocator::new(arena_size, min_block);
        proof {
            buddy_state::lemma_fresh_wf(buddy@.min_order, buddy@.max_order);
            buddy_laws::law_fresh_is_one_region(buddy@.min_order, buddy@.max_order);
        }
        let stats = PoolStatistics { fragmentation_count: 1, ..PoolStatistics::default() };
        MemoryPool { buddy, stats, live_bytes: 0 }
    }

    /// Allocate `size` bytes.
    ///
    /// Returns the byte offset of the allocated block, or `None` if there is not enough space.
    pub fn allocate(&mut self, size: usize) -> (offset: Option<usize>)
        requires
            old(self).wf(),
            old(self)@.buddy.can_serve(size as nat) ==> old(self)@.has_room(size as nat),
        ensures
            final(self).wf(),
            match offset {
                Some(at) => {
                    &&& old(self)@.buddy.can_serve(size as nat)
                    &&& at == old(self)@.buddy.serving_offset(size as nat)
                    &&& final(self)@ == old(self)@.allocated(size as nat)
                },
                None => {
                    &&& !old(self)@.buddy.can_serve(size as nat)
                    &&& final(self)@ == old(self)@
                },
            },
    {
        let ghost before = self@;
        let offset = match self.buddy.allocate(size) {
            Some(offset) => offset,
            None => {
                return None;
            },
        };
        proof {
            buddy_laws::lemma_allocated_wf(before.buddy, size as nat);
            lemma_counts_bounded(self.buddy@);
        }
        if let Some(block_size) = self.buddy.block_bytes_at(offset) {
            self.live_bytes = self.live_bytes + block_size;
            self.stats.total_allocations = self.stats.total_allocations + 1;
            self.stats.current_allocations = self.stats.current_allocations + 1;
            self.stats.total_allocated_bytes = self.stats.total_allocated_bytes + block_size;
            if self.live_bytes > self.stats.peak_allocated_bytes {
                self.stats.peak_allocated_bytes = self.live_bytes;
            }
            self.stats.fragmentation_count = self.buddy.free_region_count();
        }
        assert(self@ =~= before.allocated(size as nat));
        Some(offset)
    }

    /// Deallocate the block that was allocated at `offset`.
    ///
    /// Returns `true` if the block was found and freed.
    pub fn deallocate(&mut self, offset: usize) -> (freed: bool)
        requires
            old(self).wf(),
        ensures
            final(self).wf(),
            freed == old(self)@.buddy.live.contains_key(offset),
            final(self)@ == if freed {
                old(self)@.freed(offset)
            } else {
                old(self)@
            },
    {
        let ghost before = self@;
        let block_size = match self.buddy.block_bytes_at(offset) {
            Some(block_size) => block_size,
            None => {
                return false;
            },
        };
        let freed = self.buddy.deallocate(offset);
        proof {
            buddy_laws::lemma_freed_wf(before.buddy, offset);
        }
        self.live_bytes = self.live_bytes - block_size;
        self.stats.total_deallocations = self.stats.total_deallocations + 1;
        self.stats.current_allocations = self.stats.current_allocations.saturating_sub(1);
        self.stats.fragmentation_count = self.buddy.free_region_count();
        assert(self@ =~= before.freed(offset));
        freed
    }

    /// Get a snapshot of pool statistics.
    pub fn statistics(&self) -> (stats: &PoolStatistics)
        ensures
            *stats == self@.stats,
    {
        &self.stats
    }

    /// Underlying buddy allocator reference.
    pub fn buddy(&self) -> (buddy: &BuddyAllocator)
        requires
            self.wf(),
        ensures
            buddy@ == self@.buddy,
            buddy.wf(),
    {
        &self.buddy
    }

    /// The free space as `(largest free block, total free)` in bytes, or `None` if nothing is
    /// free. The fragmentation of the pool is `1 - largest / total`.
    pub fn free_space(&self) -> (space: Option<(usize, usize)>)
        requires
            self.wf(),
        ensures
            match space {
                Some((largest, total)) => {
                    &&& self@.buddy.free_count() > 0
                    &&& largest == self@.buddy.largest_free()
                    &&& total == self@.buddy.free_bytes()
                },
                None => self@.buddy.free_count() == 0,
            },
    {
        let largest = self.buddy.largest_free_block();
        proof {
            buddy_laws::law_largest_free_bounded(self.buddy@);
        }
        if largest == 0 {
            None
        } else {
            Some((largest, self.buddy.free_bytes()))
        }
    }
}

/// There are no more live blocks than bytes in the arena.
pub proof fn lemma_counts_bounded(s: BuddyState)
    requires
        s.wf(),
    ensures
        s.live.len() <= s.live_bytes() <= s.arena_bytes() <= usize::MAX,
{
    assert forall|k: usize| #[trigger] s.live.contains_key(k) implies buddy_state::order_size()(
        s.live[k],
    ) >= 1 by {
        lemma_pow2_pos(s.live[k] as nat);
    }
    totals::lemma_total_bounds_len(s.live, buddy_state::order_size());
    vstd::bits::lemma_usize_pow2_no_overflow(s.max_order);
}

} // verus!
