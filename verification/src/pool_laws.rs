//! The laws of the memory pool.

use crate::buddy_effects;
use crate::buddy_laws;
use crate::buddy_state;
use crate::pool::PoolState;
use vstd::arithmetic::power2::*;
use vstd::prelude::*;

verus! {

/// Whether `after` is a state that one operation on `before` can lead to: a request that is
/// served, a block that is freed, or an operation that is refused.
pub open spec fn step(before: PoolState, after: PoolState) -> bool {
    ||| after == before
    ||| exists|size: nat|
        before.buddy.can_serve(size) && before.has_room(size) && after == #[trigger]
            before.allocated(size)
    ||| exists|offset: usize|
        before.buddy.live.contains_key(offset) && after == #[trigger] before.freed(offset)
}

/// Whether the states are those of a pool from its creation on, one operation apart.
pub open spec fn history(states: Seq<PoolState>) -> bool {
    &&& states.len() > 0
    &&& states[0].wf()
    &&& states[0].buddy.live_bytes() == 0
    &&& states[0].stats.peak_allocated_bytes == 0
    &&& forall|i: int|
        0 < i < states.len() ==> step(#[trigger] states[i - 1], #[trigger] states[i])
}

/// The most bytes that were allocated in any of the states.
pub open spec fn high_water(states: Seq<PoolState>) -> nat
    decreases states.len(),
{
    if states.len() == 0 {
        0
    } else {
        let earlier = high_water(states.drop_last());
        let now = states.last().buddy.live_bytes();
        if now > earlier {
            now
        } else {
            earlier
        }
    }
}

/// Serving a request keeps the invariant.
pub proof fn lemma_allocated_wf(s: PoolState, size: nat)
    requires
        s.wf(),
        s.buddy.can_serve(size),
        s.has_room(size),
    ensures
        s.allocated(size).wf(),
{
    buddy_laws::lemma_allocated_wf(s.buddy, size);
    crate::pool::lemma_counts_bounded(s.buddy.allocated(size));
    buddy_state::lemma_free_regions_bounded(s.buddy.allocated(size));
}

/// Freeing a live block keeps the invariant.
pub proof fn lemma_freed_wf(s: PoolState, offset: usize)
    requires
        s.wf(),
        s.buddy.live.contains_key(offset),
    ensures
        s.freed(offset).wf(),
{
    buddy_laws::lemma_freed_wf(s.buddy, offset);
    buddy_state::lemma_free_regions_bounded(s.buddy.freed(offset));
}

/// The peak counter of a pool is the most bytes that were ever allocated at one time.
pub proof fn law_peak_is_high_water(states: Seq<PoolState>)
    requires
        history(states),
    ensures
        states.last().wf(),
        states.last().stats.peak_allocated_bytes == high_water(states),
    decreases states.len(),
{
    let n = states.len() as int;
    if n == 1 {
        assert(high_water(states.drop_last()) == 0);
    } else {
        let earlier = states.drop_last();
        assert forall|i: int| 0 < i < earlier.len() implies step(
            #[trigger] earlier[i - 1],
            #[trigger] earlier[i],
        ) by {
            assert(step(states[i - 1], states[i]));
        }
        law_peak_is_high_water(earlier);
        let before = states[n - 2];
        let after = states[n - 1];
        assert(earlier.last() == before);
        assert(step(states[n - 1 - 1], states[n - 1]));
        if after != before {
            if exists|size: nat|
                before.buddy.can_serve(size) && before.has_room(size) && after == #[trigger]
                    before.allocated(size) {
                let size = choose|size: nat|
                    before.buddy.can_serve(size) && before.has_room(size) && after == #[trigger]
                        before.allocated(size);
                lemma_allocated_wf(before, size);
            } else {
                let offset = choose|offset: usize|
                    before.buddy.live.contains_key(offset) && after == #[trigger] before.freed(
                        offset,
                    );
                lemma_freed_wf(before, offset);
                buddy_laws::lemma_freed_wf(before.buddy, offset);
            }
        }
    }
}

/// A served request is counted once, and with all the bytes of the block that it gets: the least
/// power of two that holds the request and the smallest block. The peak rises to what is then
/// allocated if that is more.
pub proof fn law_allocate_counted(s: PoolState, size: nat)
    requires
        s.wf(),
        s.buddy.can_serve(size),
        s.has_room(size),
    ensures
        ({
            let t = s.allocated(size);
            let order = t.buddy.live[s.buddy.serving_offset(size)] as nat;
            &&& t.buddy == s.buddy.allocated(size)
            &&& order >= s.buddy.min_order
            &&& size <= pow2(order)
            &&& order == s.buddy.min_order || pow2((order - 1) as nat) < size
            &&& t.stats.total_allocated_bytes == s.stats.total_allocated_bytes + pow2(order)
            &&& t.buddy.live_bytes() == s.buddy.live_bytes() + pow2(order)
            &&& t.stats.peak_allocated_bytes >= t.buddy.live_bytes()
            &&& t.stats.peak_allocated_bytes >= s.stats.peak_allocated_bytes
            &&& t.stats.peak_allocated_bytes == t.buddy.live_bytes()
                || t.stats.peak_allocated_bytes == s.stats.peak_allocated_bytes
            &&& t.stats.total_allocations == s.stats.total_allocations + 1
            &&& t.stats.total_deallocations == s.stats.total_deallocations
            &&& t.stats.current_allocations == s.stats.current_allocations + 1
            &&& t.stats.fragmentation_count == t.buddy.free_regions()
        }),
{
    let top = buddy_effects::law_allocate_takes_smallest(s.buddy, size);
    buddy_laws::lemma_allocated_wf(s.buddy, size);
    lemma_allocated_wf(s, size);
    crate::pool::lemma_counts_bounded(s.buddy.allocated(size));
    vstd::bits::lemma_usize_pow2_no_overflow(s.buddy.max_order);
}

/// A freed block is counted once. The bytes that requests were given, their number and the peak
/// stay as they are.
pub proof fn law_free_counted(s: PoolState, offset: usize)
    requires
        s.wf(),
        s.buddy.live.contains_key(offset),
    ensures
        ({
            let t = s.freed(offset);
            &&& t.buddy == s.buddy.freed(offset)
            &&& t.stats.total_allocated_bytes == s.stats.total_allocated_bytes
            &&& t.buddy.live_bytes() + pow2(s.buddy.live[offset] as nat) == s.buddy.live_bytes()
            &&& t.stats.peak_allocated_bytes == s.stats.peak_allocated_bytes
            &&& t.stats.total_allocations == s.stats.total_allocations
            &&& t.stats.total_deallocations == s.stats.total_deallocations + 1
            &&& t.stats.current_allocations + 1 == s.stats.current_allocations
            &&& t.stats.fragmentation_count == t.buddy.free_regions()
        }),
{
    buddy_laws::lemma_freed_wf(s.buddy, offset);
    lemma_freed_wf(s, offset);
}

/// The counters have room for a request exactly when one more request can be counted and its
/// bytes, the least power of two that holds it and the smallest block, can be added.
pub proof fn law_room_in_counters(s: PoolState, size: nat, order: nat)
    requires
        order >= s.buddy.min_order,
        size <= pow2(order),
        order == s.buddy.min_order || pow2((order - 1) as nat) < size,
    ensures
        s.has_room(size) <==> s.stats.total_allocations < u64::MAX
            && s.stats.total_allocated_bytes + pow2(order) <= usize::MAX,
{
    buddy_effects::law_request_rounds_up(s.buddy, size);
    let least = s.buddy.request_order(size);
    if least < order {
        crate::arith::lemma_pow2_le(least, (order - 1) as nat);
    } else if order < least {
        crate::arith::lemma_pow2_le(order, (least - 1) as nat);
    }
}

/// The bytes of the block that is allocated in `after` and was not in `before`, or zero if there
/// is none.
pub open spec fn bytes_given(before: PoolState, after: PoolState) -> nat {
    if exists|k: usize| #[trigger]
        after.buddy.live.contains_key(k) && !before.buddy.live.contains_key(k) {
        let k = choose|k: usize| #[trigger]
            after.buddy.live.contains_key(k) && !before.buddy.live.contains_key(k);
        pow2(after.buddy.live[k] as nat)
    } else {
        0
    }
}

/// The sum of the bytes of the blocks that were given from each state to the next.
pub open spec fn all_bytes_given(states: Seq<PoolState>) -> nat
    decreases states.len(),
{
    if states.len() < 2 {
        0
    } else {
        all_bytes_given(states.drop_last()) + bytes_given(
            states[states.len() - 2],
            states[states.len() - 1],
        )
    }
}

/// The number of states in which a block is allocated that was not in the state before.
pub open spec fn blocks_given(states: Seq<PoolState>) -> nat
    decreases states.len(),
{
    if states.len() < 2 {
        0
    } else {
        let before = states[states.len() - 2].buddy.live;
        let after = states[states.len() - 1].buddy.live;
        blocks_given(states.drop_last()) + if exists|k: usize| #[trigger]
            after.contains_key(k) && !before.contains_key(k) {
            1nat
        } else {
            0nat
        }
    }
}

/// Over the history of a pool, the bytes that it counts are the sum of the bytes of the blocks
/// that it gave, the requests that it counts are those blocks, and the blocks freed that it
/// counts are those of them that are not allocated any more.
pub proof fn law_history_counted(states: Seq<PoolState>)
    requires
        history(states),
        states[0].stats.total_allocated_bytes == 0,
        states[0].stats.total_allocations == 0,
    ensures
        states.last().stats.total_allocated_bytes == all_bytes_given(states),
        states.last().stats.total_allocations == blocks_given(states),
        states.last().stats.total_deallocations + states.last().buddy.live.len() == blocks_given(
            states,
        ),
    decreases states.len(),
{
    law_peak_is_high_water(states);
    let n = states.len() as int;
    if n > 1 {
        let earlier = states.drop_last();
        assert forall|i: int| 0 < i < earlier.len() implies step(
            #[trigger] earlier[i - 1],
            #[trigger] earlier[i],
        ) by {
            assert(step(states[i - 1], states[i]));
        }
        law_history_counted(earlier);
        law_peak_is_high_water(earlier);
        let before = states[n - 2];
        let after = states[n - 1];
        assert(earlier.last() == before);
        assert(step(states[n - 1 - 1], states[n - 1]));
        if after != before {
            if exists|size: nat|
                before.buddy.can_serve(size) && before.has_room(size) && after == #[trigger]
                    before.allocated(size) {
                let size = choose|size: nat|
                    before.buddy.can_serve(size) && before.has_room(size) && after == #[trigger]
                        before.allocated(size);
                law_allocate_counted(before, size);
                let top = buddy_effects::law_allocate_takes_smallest(before.buddy, size);
                assert(after.buddy.live.contains_key(before.buddy.serving_offset(size)));
                assert(!before.buddy.live.contains_key(before.buddy.serving_offset(size)));
            } else {
                let offset = choose|offset: usize|
                    before.buddy.live.contains_key(offset) && after == #[trigger] before.freed(
                        offset,
                    );
                law_free_counted(before, offset);
                let joined = buddy_effects::law_free_joins_buddies(before.buddy, offset);
            }
        }
    }
}

/// Requests served are blocks freed and blocks still allocated.
pub proof fn law_counters_balance(s: PoolState)
    requires
        s.wf(),
    ensures
        s.stats.total_allocations == s.stats.total_deallocations + s.buddy.live.len(),
        s.stats.current_allocations == s.buddy.live.len(),
{
}

/// What is allocated is no more than the peak, and the peak no more than the arena.
pub proof fn law_utilization_bounded(s: PoolState)
    requires
        s.wf(),
    ensures
        s.buddy.live_bytes() <= s.stats.peak_allocated_bytes <= s.buddy.arena_bytes(),
{
}

/// The fragmentation count is the number of free regions: none when nothing is free, and one
/// when nothing is allocated.
pub proof fn law_fragmentation_counts_regions(s: PoolState)
    requires
        s.wf(),
    ensures
        s.stats.fragmentation_count == s.buddy.free_regions(),
        s.stats.fragmentation_count == 0 <==> s.buddy.free_bytes() == 0,
        s.buddy.live.dom().is_empty() ==> s.stats.fragmentation_count == 1,
{
    buddy_laws::law_no_regions_iff_nothing_free(s.buddy);
    if s.buddy.live.dom().is_empty() {
        buddy_laws::law_all_freed_is_fresh(s.buddy);
        buddy_laws::law_fresh_is_one_region(s.buddy.min_order, s.buddy.max_order);
    }
}

/// Freeing the block that a request was just given restores the blocks, the number of blocks
/// allocated and the number of free regions, and leaves both operations counted.
pub proof fn law_free_undoes_allocate(s: PoolState, size: nat)
    requires
        s.wf(),
        s.buddy.can_serve(size),
        s.has_room(size),
    ensures
        s.allocated(size).buddy.live.contains_key(s.buddy.serving_offset(size)),
        ({
            let r = s.allocated(size).freed(s.buddy.serving_offset(size));
            &&& r.buddy == s.buddy
            &&& r.stats.current_allocations == s.stats.current_allocations
            &&& r.stats.fragmentation_count == s.stats.fragmentation_count
            &&& r.stats.total_allocations == s.stats.total_allocations + 1
            &&& r.stats.total_deallocations == s.stats.total_deallocations + 1
        }),
{
    buddy_laws::law_free_undoes_allocate(s.buddy, size);
    lemma_allocated_wf(s, size);
}

} // verus!
