//! A buddy allocator: power-of-two blocks that split on demand and join when freed.

use crate::arith;
use crate::buddy_laws;
use crate::buddy_state;
use crate::buddy_state::BuddyState;
use crate::lists;
use crate::tiling::Block;
use crate::totals;
use std::collections::BTreeMap;
use vstd::arithmetic::power2::*;
use vstd::prelude::*;

verus! {

/// A buddy-system allocator over a contiguous arena of `2^max_order` bytes.
///
/// Hands out power-of-two blocks. On free, buddies are joined automatically.
#[derive(Debug)]
pub struct BuddyAllocator {
    /// Total size of the arena in bytes, a power of two.
    arena_size: usize,
    /// Smallest allocation unit in bytes, a power of two.
    min_block: usize,
    /// `arena_size == 2^max_order`.
    max_order: usize,
    /// `min_block == 2^min_order`.
    min_order: usize,
    /// `free[o]` holds the offsets of the free blocks of order `o`.
    free: Vec<Vec<usize>>,
    /// The order of the allocated block at each offset that has one.
    allocated: BTreeMap<usize, usize>,
}

/// The index of the first item that equals `x`.
fn position(list: &Vec<usize>, x: usize) -> (index: Option<usize>)
    ensures
        match index {
            Some(i) => {
                &&& i < list@.len()
                &&& list@[i as int] == x
                &&& forall|j: int| 0 <= j < i ==> list@[j] != x
            },
            None => !lists::holds(list@, x as int),
        },
{
    let mut i: usize = 0;
    while i < list.len()
        invariant
            i <= list@.len(),
            forall|j: int| 0 <= j < i ==> list@[j] != x,
        decreases list@.len() - i,
    {
        if list[i] == x {
            return Some(i);
        }
        i = i + 1;
    }
    None
}

impl View for BuddyAllocator {
    type V = BuddyState;

    closed spec fn view(&self) -> BuddyState {
        BuddyState {
            min_order: self.min_order as nat,
            max_order: self.max_order as nat,
            free: Seq::new(self.free@.len(), |o: int| self.free@[o]@),
            live: self.allocated@,
        }
    }
}

impl BuddyAllocator {
    /// The sizes in bytes agree with the orders.
    pub closed spec fn sizes_agree(&self) -> bool {
        &&& self.arena_size == pow2(self.max_order as nat)
        &&& self.min_block == pow2(self.min_order as nat)
    }

    /// The invariant of the allocator.
    pub open spec fn wf(&self) -> bool {
        &&& self@.wf()
        &&& self.sizes_agree()
    }

    /// Create a buddy allocator.
    ///
    /// `arena_size` and `min_block` must be powers of two, and `arena_size >= min_block`.
    pub fn new(arena_size: usize, min_block: usize) -> (allocator: Self)
        requires
            is_pow2(arena_size as int),
            is_pow2(min_block as int),
            arena_size >= min_block,
        ensures
            allocator.wf(),
            allocator@ == BuddyState::fresh(
                arith::ceil_order(min_block as nat, 0),
                arith::ceil_order(arena_size as nat, 0),
            ),
            allocator@.arena_bytes() == arena_size,
            pow2(allocator@.max_order) == arena_size,
            pow2(allocator@.min_order) == min_block,
            allocator@.free.len() == allocator@.max_order + 1,
            allocator@.free[allocator@.max_order as int] == seq![0usize],
            forall|o: int|
                0 <= o < allocator@.max_order ==> (#[trigger] allocator@.free[o]).len() == 0,
            allocator@.live == Map::<usize, usize>::empty(),
    {
        let max_order = arith::exact_order(arena_size);
        let min_order = arith::exact_order(min_block);
        proof {
            if min_order > max_order {
                lemma_pow2_strictly_increases(max_order as nat, min_order as nat);
            }
        }
        let mut free: Vec<Vec<usize>> = Vec::new();
        let mut o: usize = 0;
        while o < max_order
            invariant
                free@.len() == o <= max_order,
                forall|i: int| 0 <= i < o ==> (#[trigger] free@[i])@.len() == 0,
            decreases max_order - o,
        {
            free.push(Vec::new());
            o = o + 1;
        }
        let mut whole: Vec<usize> = Vec::new();
        whole.push(0);
        free.push(whole);
        let allocator = BuddyAllocator {
            arena_size,
            min_block,
            max_order,
            min_order,
            free,
            allocated: BTreeMap::new(),
        };
        proof {
            let fresh = BuddyState::fresh(min_order as nat, max_order as nat);
            assert(allocator@.free =~~= fresh.free);
            buddy_state::lemma_fresh_wf(min_order as nat, max_order as nat);
        }
        allocator
    }

    /// The order of the block that a request for `size` bytes gets, if the arena has that order.
    fn order_for(&self, size: usize) -> (order: Option<usize>)
        requires
            self.wf(),
        ensures
            match order {
                Some(o) => o == self@.request_order(size as nat) && o <= self@.max_order,
                None => self@.request_order(size as nat) > self@.max_order,
            },
    {
        let mut order: usize = self.min_order;
        while order <= self.max_order && arith::order_bytes(order) < size
            invariant
                self.wf(),
                self@.min_order <= order <= self@.max_order + 1,
                arith::ceil_order(size as nat, order as nat) == self@.request_order(size as nat),
            decreases self.max_order + 1 - order,
        {
            order = order + 1;
        }
        if order <= self.max_order {
            Some(order)
        } else {
            proof {
                arith::lemma_ceil_order_least(size as nat, order as nat);
            }
            None
        }
    }

    /// Allocate `size` bytes (rounded up to the next power of two, at least the smallest block).
    ///
    /// Returns the byte offset of the allocated block, or `None` if there is not enough space.
    pub fn allocate(&mut self, size: usize) -> (offset: Option<usize>)
        requires
            old(self).wf(),
        ensures
            final(self).wf(),
            match offset {
                Some(at) => {
                    &&& old(self)@.can_serve(size as nat)
                    &&& at == old(self)@.serving_offset(size as nat)
                    &&& final(self)@ == old(self)@.allocated(size as nat)
                },
                None => {
                    &&& !old(self)@.can_serve(size as nat)
                    &&& final(self)@ == old(self)@
                },
            },
    {
        let order = match self.order_for(size) {
            Some(order) => order,
            None => {
                return None;
            },
        };
        let ghost before = self@;
        let mut top: usize = order;
        while top <= self.max_order && self.free[top].len() == 0
            invariant
                self.wf(),
                self@ == before,
                order <= top <= self@.max_order + 1,
                buddy_state::first_nonempty(before.free, top as nat) == buddy_state::first_nonempty(
                    before.free,
                    order as nat,
                ),
            decreases self.max_order + 1 - top,
        {
            assert(before.free[top as int].len() == 0);
            top = top + 1;
        }
        if top > self.max_order {
            return None;
        }
        assert(before.free[top as int].len() > 0);
        let offset = match self.free[top].pop() {
            Some(offset) => offset,
            None => {
                return None;
            },
        };
        let mut o: usize = top;
        assert(self@ =~= before.carved(top as nat, top as nat));
        proof {
            arith::lemma_ceil_order_least(size as nat, before.min_order);
            buddy_laws::lemma_carved_sound(before, top as nat, top as nat);
            let held = Block { offset: offset as int, order: top as nat };
            assert(self@.blocks_with(Some(held)).contains(held));
            vstd::bits::lemma_usize_pow2_no_overflow(before.max_order);
        }
        while o > order
            invariant
                order <= o <= top <= before.max_order < usize::BITS,
                before.free.len() == before.max_order + 1,
                offset == before.free[top as int].last(),
                offset + pow2(top as nat) <= usize::MAX,
                self.sizes_agree(),
                self@ == before.carved(top as nat, o as nat),
            decreases o,
        {
            o = o - 1;
            proof {
                arith::lemma_pow2_le(o as nat, top as nat);
            }
            let upper = offset + arith::order_bytes(o);
            let ghost now = self@.free;
            assert(now.len() == before.free.len());
            self.free[o].push(upper);
            assert(self@.free =~= now.update(o as int, now[o as int].push(upper)));
            assert(self@ =~= before.carved(top as nat, o as nat));
        }
        self.allocated.insert(offset, order);
        assert(self@ =~= before.allocated(size as nat));
        proof {
            buddy_laws::lemma_allocated_wf(before, size as nat);
        }
        Some(offset)
    }

    /// Deallocate the block that was allocated at `offset`, joining it with free buddies.
    ///
    /// Returns `true` if the block was found and freed.
    pub fn deallocate(&mut self, offset: usize) -> (freed: bool)
        requires
            old(self).wf(),
        ensures
            final(self).wf(),
            freed == old(self)@.live.contains_key(offset),
            final(self)@ == if freed {
                old(self)@.freed(offset)
            } else {
                old(self)@
            },
    {
        let ghost before = self@;
        let order = match self.allocated.remove(&offset) {
            Some(order) => order,
            None => {
                assert(self@ =~= before);
                return false;
            },
        };
        let ghost base = before.drop_live(offset);
        assert(self@ =~= base.gathered(offset, order as nat, order as nat));
        proof {
            let b = Block { offset: offset as int, order: order as nat };
            assert(before.is_live(b));
            assert(before.blocks().contains(b));
        }
        let mut current_offset: usize = offset;
        let mut current_order: usize = order;
        while current_order < self.max_order
            invariant
                before.wf(),
                before.live.contains_key(offset),
                order == before.live[offset],
                base == before.drop_live(offset),
                order <= current_order <= before.max_order,
                buddy_laws::join_order(before.free, offset as int, current_order as nat)
                    == before.freed_order(offset),
                current_offset == arith::floor_to(offset as int, current_order as nat),
                self.sizes_agree(),
                self@ == base.gathered(offset, order as nat, current_order as nat),
            ensures
                current_order == before.freed_order(offset),
            decreases self.max_order - current_order,
        {
            let ghost now = self@.free;
            assert(now.len() == before.free.len());
            assert(now[current_order as int] == before.free[current_order as int]);
            proof {
                arith::lemma_xor_is_buddy(current_offset, current_order);
                arith::lemma_floor_floor(offset as int, current_order as nat);
                arith::lemma_buddy_pair(current_offset as int, current_order as nat);
            }
            let buddy = current_offset ^ (1usize << current_order);
            match position(&self.free[current_order], buddy) {
                Some(i) => {
                    proof {
                        assert(before.free[current_order as int].no_duplicates());
                        assert(before.free[current_order as int].contains(buddy));
                        assert(before.free[current_order as int].index_of(buddy) == i);
                        assert(lists::holds(before.free[current_order as int], buddy as int));
                    }
                    self.free[current_order].swap_remove(i);
                    assert(self@.free =~= now.update(
                        current_order as int,
                        lists::swap_removed(now[current_order as int], i as int),
                    ));
                    assert(self@.free =~= base.gathered(
                        offset,
                        order as nat,
                        current_order as nat + 1,
                    ).free);
                    if buddy < current_offset {
                        current_offset = buddy;
                    }
                    current_order = current_order + 1;
                },
                None => {
                    break;
                },
            }
        }
        let ghost now = self@.free;
        assert(now.len() == before.free.len());
        self.free[current_order].push(current_offset);
        assert(self@ =~= before.freed(offset));
        proof {
            buddy_laws::lemma_freed_wf(before, offset);
        }
        true
    }

    /// Arena size in bytes.
    pub fn arena_size(&self) -> (bytes: usize)
        requires
            self.wf(),
        ensures
            bytes == self@.arena_bytes(),
            bytes == pow2(self@.max_order),
    {
        self.arena_size
    }

    /// Total allocated bytes.
    pub fn allocated_bytes(&self) -> (bytes: usize)
        requires
            self.wf(),
        ensures
            bytes == self@.live_bytes(),
    {
        let ghost live = self.allocated@;
        let orders = self.allocated.values();
        let ghost keys = choose|keys: Seq<usize>|
            {
                &&& keys.to_set() == live.dom()
                &&& keys.no_duplicates()
                &&& vstd::std_specs::iter::IteratorSpec::remaining(&orders) == keys.map(|i: int, k: usize| &live[k])
            };
        let mut bytes: usize = 0;
        proof {
            totals::lemma_total_walk_ends(live, buddy_state::order_size(), keys);
        }
        for order in walk: orders
            invariant
                self.wf(),
                live == self@.live,
                keys.to_set() == live.dom(),
                keys.no_duplicates(),
                walk.seq() == keys.map(|i: int, k: usize| &live[k]),
                bytes == totals::total(
                    live.restrict(keys.take(walk.index()).to_set()),
                    buddy_state::order_size(),
                ),
        {
            let ghost i = walk.index();
            proof {
                totals::lemma_total_walk(live, buddy_state::order_size(), keys, i);
                let b = Block { offset: keys[i] as int, order: *order as nat };
                assert(self@.is_live(b));
                assert(self@.blocks().contains(b));
            }
            bytes = bytes + arith::order_bytes(*order);
        }
        bytes
    }

    /// Number of allocated blocks.
    pub fn allocated_count(&self) -> (count: usize)
        requires
            self.wf(),
        ensures
            count == self@.live.len(),
    {
        self.allocated.len()
    }

    /// Total free bytes.
    pub fn free_bytes(&self) -> (bytes: usize)
        requires
            self.wf(),
        ensures
            bytes == self@.free_bytes(),
            bytes == self@.arena_bytes() - self@.live_bytes(),
    {
        self.arena_size - self.allocated_bytes()
    }

    /// Count of free blocks at each order that has any, as `(order, count)`, by ascending order.
    pub fn free_block_counts(&self) -> (counts: Vec<(usize, usize)>)
        requires
            self.wf(),
        ensures
            counts@ == buddy_state::block_counts(self@.free, self@.free.len()),
    {
        let mut counts: Vec<(usize, usize)> = Vec::new();
        let mut o: usize = 0;
        while o < self.free.len()
            invariant
                o <= self@.free.len() == self.free@.len(),
                counts@ == buddy_state::block_counts(self@.free, o as nat),
            decreases self.free@.len() - o,
        {
            let count = self.free[o].len();
            if count > 0 {
                counts.push((o, count));
            }
            o = o + 1;
        }
        counts
    }

    /// Size in bytes of the largest free block, or zero if nothing is free.
    pub fn largest_free_block(&self) -> (bytes: usize)
        requires
            self.wf(),
        ensures
            bytes == self@.largest_free(),
    {
        let mut o: usize = self.free.len();
        while o > 0
            invariant
                self.wf(),
                o <= self@.free.len() == self.free@.len(),
                buddy_state::largest_listed(self@.free, o as nat) == self@.largest_free(),
            decreases o,
        {
            o = o - 1;
            if self.free[o].len() > 0 {
                return arith::order_bytes(o);
            }
        }
        0
    }

    /// Size in bytes of the allocated block at `offset`.
    pub(crate) fn block_bytes_at(&self, offset: usize) -> (bytes: Option<usize>)
        requires
            self.wf(),
        ensures
            match bytes {
                Some(n) => self@.live.contains_key(offset) && n == pow2(self@.live[offset] as nat),
                None => !self@.live.contains_key(offset),
            },
    {
        match self.allocated.get(&offset) {
            Some(order) => {
                proof {
                    buddy_laws::law_live_blocks_aligned(self@, offset);
                }
                Some(arith::order_bytes(*order))
            },
            None => None,
        }
    }

    /// Whether a free block ends at `x`.
    fn free_block_ends_at(&self, x: usize) -> (ends: bool)
        requires
            self.wf(),
        ensures
            ends <==> exists|c: Block| #[trigger] self@.is_free(c) && c.end() == x,
    {
        let mut o: usize = 0;
        while o < self.free.len()
            invariant
                self.wf(),
                o <= self@.free.len() == self.free@.len(),
                forall|c: Block| #[trigger] self@.is_free(c) && c.order < o ==> c.end() != x,
            decreases self.free@.len() - o,
        {
            let size = arith::order_bytes(o);
            if size <= x {
                let found = position(&self.free[o], x - size);
                if let Some(i) = found {
                    proof {
                        let c = Block { offset: x - size, order: o as nat };
                        assert(self@.free[o as int][i as int] == c.offset);
                        assert(self@.is_free(c));
                    }
                    return true;
                }
            }
            o = o + 1;
        }
        false
    }

    /// Number of non-contiguous free regions: free blocks that touch count as one.
    pub(crate) fn free_region_count(&self) -> (count: usize)
        requires
            self.wf(),
        ensures
            count == self@.free_regions(),
    {
        let ghost s = self@;
        let ghost starts = Set::new(|b: Block| s.starts_region(b));
        let ghost mut found: Set<Block> = Set::empty();
        let mut count: usize = 0;
        let mut o: usize = 0;
        proof {
            assert(starts.intersect(buddy_state::listed_before(s.free, 0, 0)) =~= found);
            buddy_state::lemma_free_regions_bounded(s);
        }
        while o < self.free.len()
            invariant
                self.wf(),
                s == self@,
                o <= s.free.len() == self.free@.len(),
                starts == Set::new(|b: Block| s.starts_region(b)),
                starts.finite(),
                starts.len() <= usize::MAX,
                found == if o < s.free.len() {
                    starts.intersect(buddy_state::listed_before(s.free, o as nat, 0))
                } else {
                    starts
                },
                found.finite(),
                count == found.len(),
            decreases self.free@.len() - o,
        {
            let mut i: usize = 0;
            while i < self.free[o].len()
                invariant
                    self.wf(),
                    s == self@,
                    o < s.free.len() == self.free@.len(),
                    i <= s.free[o as int].len(),
                    starts == Set::new(|b: Block| s.starts_region(b)),
                    starts.finite(),
                    starts.len() <= usize::MAX,
                    found == starts.intersect(
                        buddy_state::listed_before(s.free, o as nat, i as nat),
                    ),
                    found.finite(),
                    count == found.len(),
                decreases s.free[o as int].len() - i,
            {
                let offset = self.free[o][i];
                let ghost b = Block { offset: offset as int, order: o as nat };
                proof {
                    assert(s.free[o as int].no_duplicates());
                    assert(s.free[o as int][i as int] == b.offset);
                    assert(s.is_free(b));
                    buddy_state::lemma_listed_next(s.free, o as nat, i as nat);
                }
                if !self.free_block_ends_at(offset) {
                    proof {
                        assert(s.starts_region(b));
                        assert(found.insert(b) =~= starts.intersect(
                            buddy_state::listed_before(s.free, o as nat, i as nat + 1),
                        ));
                        assert(found.insert(b).subset_of(starts));
                        vstd::set_lib::lemma_len_subset(found.insert(b), starts);
                        found = found.insert(b);
                    }
                    count = count + 1;
                } else {
                    assert(!s.starts_region(b));
                    assert(found =~= starts.intersect(
                        buddy_state::listed_before(s.free, o as nat, i as nat + 1),
                    ));
                }
                i = i + 1;
            }
            proof {
                buddy_state::lemma_listed_wraps(s.free, o as nat);
                if o + 1 == s.free.len() {
                    buddy_state::lemma_listed_all(s);
                    assert(found =~= starts);
                }
            }
            o = o + 1;
        }
        count
    }
}

} // verus!
