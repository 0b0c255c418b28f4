//! A pool of blocks of one size.

use std::collections::{HashMap, VecDeque};
use vstd::prelude::*;

verus! {

/// The mathematical state of a block pool.
#[verifier::ext_equal]
pub struct BlockState {
    /// Bytes of each block.
    pub block_size: nat,
    /// Number of blocks, free and live.
    pub total_blocks: nat,
    /// The free blocks, in the order in which they will be handed out.
    pub free: Seq<usize>,
    /// The live blocks.
    pub live: Set<usize>,
}

impl BlockState {
    /// The state of a pool with nothing allocated.
    pub open spec fn fresh(block_size: nat, count: usize) -> BlockState {
        BlockState {
            block_size,
            total_blocks: count as nat,
            free: Seq::new(count as nat, |i: int| i as usize),
            live: Set::empty(),
        }
    }

    /// The invariant: every block index is either free, and listed once, or live.
    pub open spec fn wf(self) -> bool {
        &&& self.total_blocks <= usize::MAX
        &&& self.free.no_duplicates()
        &&& self.live.finite()
        &&& forall|i: usize| #[trigger] self.live.contains(i) ==> !self.free.contains(i)
        &&& forall|i: usize|
            i < self.total_blocks <==> #[trigger] self.live.contains(i) || self.free.contains(i)
    }

    /// The state after the first free block was handed out.
    pub open spec fn allocated(self) -> BlockState {
        BlockState {
            free: self.free.drop_first(),
            live: self.live.insert(self.free.first()),
            ..self
        }
    }

    /// The state after the live block `i` was freed: it is the next to be handed out.
    pub open spec fn freed(self, i: usize) -> BlockState {
        BlockState { free: seq![i] + self.free, live: self.live.remove(i), ..self }
    }
}

/// A simple free-list allocator that hands out fixed-size blocks from a contiguous arena.
///
/// Each block has the same capacity. Freed blocks are pushed onto the front of the free list
/// for O(1) reuse: the block that was freed last is handed out first.
#[derive(Debug)]
pub struct BlockAllocator {
    block_size: usize,
    total_blocks: usize,
    free_list: VecDeque<usize>,
    allocated: HashMap<usize, bool>,
}

impl View for BlockAllocator {
    type V = BlockState;

    closed spec fn view(&self) -> BlockState {
        BlockState {
            block_size: self.block_size as nat,
            total_blocks: self.total_blocks as nat,
            free: self.free_list@,
            live: self.allocated@.dom(),
        }
    }
}

impl BlockAllocator {
    /// The invariant of the allocator.
    pub open spec fn wf(&self) -> bool {
        self@.wf()
    }

    /// Create a new allocator with `count` blocks of `block_size` bytes each.
    pub fn new(block_size: usize, count: usize) -> (allocator: Self)
        ensures
            allocator.wf(),
            allocator@ == BlockState::fresh(block_size as nat, count),
            allocator@.block_size == block_size,
            allocator@.total_blocks == count,
            allocator@.free.len() == count,
            forall|i: int| 0 <= i < count ==> #[trigger] allocator@.free[i] == i,
            allocator@.live == Set::<usize>::empty(),
    {
        let mut free_list: VecDeque<usize> = VecDeque::new();
        let mut i: usize = 0;
        while i < count
            invariant
                i <= count,
                free_list@ == Seq::new(i as nat, |k: int| k as usize),
            decreases count - i,
        {
            free_list.push_back(i);
            i = i + 1;
            assert(free_list@ =~= Seq::new(i as nat, |k: int| k as usize));
        }
        let allocator = BlockAllocator {
            block_size,
            total_blocks: count,
            free_list,
            allocated: HashMap::new(),
        };
        proof {
            assert(allocator@.live =~= Set::empty());
            assert forall|i: usize| i < count implies allocator@.free.contains(i) by {
                assert(allocator@.free[i as int] == i);
            }
        }
        allocator
    }

    /// Allocate one block. Returns its index, or `None` if exhausted.
    pub fn allocate(&mut self) -> (index: Option<usize>)
        requires
            old(self).wf(),
        ensures
            final(self).wf(),
            match index {
                Some(i) => {
                    &&& old(self)@.free.len() > 0
                    &&& i == old(self)@.free.first()
                    &&& final(self)@ == old(self)@.allocated()
                },
                None => {
                    &&& old(self)@.free.len() == 0
                    &&& final(self)@ == old(self)@
                },
            },
    {
        let ghost before = self@;
        match self.free_list.pop_front() {
            Some(index) => {
                self.allocated.insert(index, true);
                proof {
                    assert(self@ =~= before.allocated());
                    lemma_allocated_wf(before);
                }
                Some(index)
            },
            None => None,
        }
    }

    /// Deallocate a block, returning it to the front of the free list.
    ///
    /// Returns `true` if the block was actually allocated.
    pub fn deallocate(&mut self, idx: usize) -> (freed: bool)
        requires
            old(self).wf(),
        ensures
            final(self).wf(),
            freed == old(self)@.live.contains(idx),
            final(self)@ == if freed {
                old(self)@.freed(idx)
            } else {
                old(self)@
            },
    {
        let ghost before = self@;
        if self.allocated.remove(&idx).is_some() {
            self.free_list.push_front(idx);
            proof {
                assert(self@ =~= before.freed(idx));
                lemma_freed_wf(before, idx);
            }
            true
        } else {
            assert(self@ =~= before);
            false
        }
    }

    /// Number of currently allocated blocks.
    pub fn allocated_count(&self) -> (count: usize)
        ensures
            count == self@.live.len(),
    {
        self.allocated.len()
    }

    /// Number of free blocks.
    pub fn free_count(&self) -> (count: usize)
        ensures
            count == self@.free.len(),
    {
        self.free_list.len()
    }

    /// Block size in bytes.
    pub fn block_size(&self) -> (bytes: usize)
        ensures
            bytes == self@.block_size,
    {
        self.block_size
    }

    /// Total arena size in bytes.
    pub fn total_bytes(&self) -> (bytes: usize)
        requires
            self@.block_size * self@.total_blocks <= usize::MAX,
        ensures
            bytes == self@.block_size * self@.total_blocks,
    {
        self.block_size * self.total_blocks
    }

    /// Used bytes.
    pub fn used_bytes(&self) -> (bytes: usize)
        requires
            self@.block_size * self@.live.len() <= usize::MAX,
        ensures
            bytes == self@.block_size * self@.live.len(),
    {
        self.block_size * self.allocated_count()
    }
}

/// Handing out a block keeps the invariant.
pub proof fn lemma_allocated_wf(s: BlockState)
    requires
        s.wf(),
        s.free.len() > 0,
    ensures
        s.allocated().wf(),
        !s.live.contains(s.free.first()),
        s.free.first() < s.total_blocks,
{
    let after = s.allocated();
    assert(s.free.contains(s.free.first()));
    assert forall|i: usize| #[trigger] after.free.contains(i) <==> s.free.contains(i) && i
        != s.free.first() by {
        if s.free.contains(i) && i != s.free.first() {
            let k = choose|k: int| 0 <= k < s.free.len() && s.free[k] == i;
            assert(after.free[k - 1] == i);
        }
    }
    assert forall|i: usize|
        i < after.total_blocks <==> #[trigger] after.live.contains(i) || after.free.contains(i) by {
        assert(s.live.contains(i) || s.free.contains(i) <==> i < s.total_blocks);
    }
}

/// Freeing a live block keeps the invariant.
pub proof fn lemma_freed_wf(s: BlockState, idx: usize)
    requires
        s.wf(),
        s.live.contains(idx),
    ensures
        s.freed(idx).wf(),
{
    let after = s.freed(idx);
    assert(!s.free.contains(idx));
    assert forall|i: usize| #[trigger] after.free.contains(i) <==> s.free.contains(i) || i == idx by {
        if i == idx {
            assert(after.free[0] == i);
        } else if s.free.contains(i) {
            let k = choose|k: int| 0 <= k < s.free.len() && s.free[k] == i;
            assert(after.free[k + 1] == i);
        }
    }
    assert forall|i: usize|
        i < after.total_blocks <==> #[trigger] after.live.contains(i) || after.free.contains(i) by {
        assert(s.live.contains(i) || s.free.contains(i) <==> i < s.total_blocks);
    }
}

/// A new pool has exactly the blocks asked for: all of them free, `0, 1, ..` in this order, and
/// each of the size asked for.
pub proof fn law_new_pool_has_all_blocks(block_size: nat, count: usize)
    ensures
        BlockState::fresh(block_size, count).block_size == block_size,
        BlockState::fresh(block_size, count).total_blocks == count,
        BlockState::fresh(block_size, count).free.len() == count,
        forall|i: int|
            0 <= i < count ==> #[trigger] BlockState::fresh(block_size, count).free[i] == i,
        forall|i: usize| !(#[trigger] BlockState::fresh(block_size, count).live.contains(i)),
{
}

/// Handing out a block takes the first of the free list and no other: it becomes live, and the
/// rest of the list keeps its order.
pub proof fn law_allocate_takes_first(s: BlockState)
    requires
        s.free.len() > 0,
    ensures
        s.allocated().block_size == s.block_size,
        s.allocated().total_blocks == s.total_blocks,
        s.allocated().free.len() == s.free.len() - 1,
        forall|i: int| 0 <= i < s.free.len() - 1 ==> #[trigger] s.allocated().free[i] == s.free[i + 1],
        forall|i: usize| #[trigger]
            s.allocated().live.contains(i) <==> s.live.contains(i) || i == s.free[0],
{
}

/// Freeing a block puts it before the rest of the free list, which keeps its order.
pub proof fn law_free_puts_first(s: BlockState, idx: usize)
    ensures
        s.freed(idx).block_size == s.block_size,
        s.freed(idx).total_blocks == s.total_blocks,
        s.freed(idx).free.len() == s.free.len() + 1,
        s.freed(idx).free[0] == idx,
        forall|i: int| 0 <= i < s.free.len() ==> s.freed(idx).free[i + 1] == #[trigger] s.free[i],
        forall|i: usize| #[trigger]
            s.freed(idx).live.contains(i) <==> s.live.contains(i) && i != idx,
{
}

/// The block that was freed last is the next to be handed out, and handing it out again
/// leaves the pool as it was before it was freed.
pub proof fn law_last_freed_first_reused(s: BlockState, idx: usize)
    requires
        s.wf(),
        s.live.contains(idx),
    ensures
        s.freed(idx).free.len() > 0,
        s.freed(idx).free.first() == idx,
        s.freed(idx).allocated() == s,
{
    assert(s.freed(idx).allocated().free =~= s.free);
    assert(s.freed(idx).allocated().live =~= s.live);
}

/// Freeing the block that was just handed out restores the pool exactly.
pub proof fn law_free_undoes_allocate(s: BlockState)
    requires
        s.wf(),
        s.free.len() > 0,
    ensures
        s.allocated().live.contains(s.free.first()),
        s.allocated().freed(s.free.first()) == s,
{
    lemma_allocated_wf(s);
    let r = s.allocated().freed(s.free.first());
    assert(r.free =~= s.free);
    assert(r.live =~= s.live);
}

/// Handing out or freeing a block leaves the other blocks as they are, and a freed block cannot
/// be freed again.
pub proof fn law_others_kept(s: BlockState, idx: usize, other: usize)
    requires
        s.wf(),
        s.live.contains(idx),
        other != idx,
    ensures
        !s.freed(idx).live.contains(idx),
        s.freed(idx).live.contains(other) <==> s.live.contains(other),
        s.free.len() > 0 ==> s.allocated().live.contains(idx),
        s.free.len() > 0 && other != s.free.first() ==> (s.allocated().live.contains(other)
            <==> s.live.contains(other)),
{
}

/// Every block is counted once, as free or as live.
pub proof fn law_blocks_conserved(s: BlockState)
    requires
        s.wf(),
    ensures
        s.free.len() + s.live.len() == s.total_blocks,
        s.block_size * s.free.len() + s.block_size * s.live.len() == s.block_size * s.total_blocks,
{
    s.free.unique_seq_to_set();
    let listed = s.free.to_set();
    vstd::seq_lib::seq_to_set_is_finite(s.free);
    vstd::set_lib::lemma_set_disjoint_lens(listed, s.live);
    let all = Set::new(|i: usize| i < s.total_blocks);
    assert(listed + s.live =~= all) by {
        assert forall|i: usize| (listed + s.live).contains(i) <==> #[trigger] all.contains(i) by {
            assert(s.live.contains(i) || s.free.contains(i) <==> i < s.total_blocks);
        }
    }
    lemma_indices_counted(s.total_blocks);
    assert(s.block_size * (s.free.len() + s.live.len()) == s.block_size * s.free.len()
        + s.block_size * s.live.len()) by (nonlinear_arith);
}

proof fn lemma_indices_counted(n: nat)
    requires
        n <= usize::MAX,
    ensures
        Set::new(|i: usize| i < n).finite(),
        Set::new(|i: usize| i < n).len() == n,
    decreases n,
{
    if n == 0 {
        assert(Set::new(|i: usize| i < n) =~= Set::empty());
    } else {
        lemma_indices_counted((n - 1) as nat);
        assert(Set::new(|i: usize| i < n) =~= Set::new(|i: usize| i < (n - 1) as nat).insert(
            (n - 1) as usize,
        ));
    }
}

} // verus!
