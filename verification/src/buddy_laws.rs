//! What allocation and deallocation do to a buddy allocator, and the laws they keep.

use crate::arith;
use crate::buddy_state;
use crate::buddy_state::BuddyState;
use crate::lists;
use crate::tiling;
use crate::tiling::Block;
use vstd::arithmetic::power2::*;
use vstd::prelude::*;

verus! {

/// The order up to which the block of order `from` that holds `offset` joins with free buddies.
pub open spec fn join_order(free: Seq<Seq<usize>>, offset: int, from: nat) -> nat
    decreases free.len() - from,
{
    if from + 1 < free.len() && lists::holds(
        free[from as int],
        arith::buddy_of(arith::floor_to(offset, from), from),
    ) {
        join_order(free, offset, from + 1)
    } else {
        from
    }
}

impl BuddyState {
    /// The order of the block that a request for `size` bytes gets.
    pub open spec fn request_order(self, size: nat) -> nat {
        arith::ceil_order(size, self.min_order)
    }

    /// The bytes of the block that a request for `size` bytes gets.
    pub open spec fn request_bytes(self, size: nat) -> nat {
        pow2(self.request_order(size))
    }

    /// The order of the free block that a request is served from.
    pub open spec fn serving_order(self, size: nat) -> nat {
        buddy_state::first_nonempty(self.free, self.request_order(size))
    }

    /// Whether a free block is large enough for the request.
    pub open spec fn can_serve(self, size: nat) -> bool {
        self.serving_order(size) < self.free.len()
    }

    /// The offset that a request for `size` bytes gets.
    pub open spec fn serving_offset(self, size: nat) -> usize {
        self.free[self.serving_order(size) as int].last()
    }

    /// The state in which the last free block of order `top` has left its list, and the
    /// upper halves that splitting it down to order `order` gives are free.
    pub open spec fn carved(self, top: nat, order: nat) -> BuddyState {
        let offset = self.free[top as int].last();
        BuddyState {
            free: Seq::new(
                self.free.len(),
                |o: int|
                    if o == top {
                        self.free[o].drop_last()
                    } else if order <= o < top {
                        self.free[o].push((offset + pow2(o as nat)) as usize)
                    } else {
                        self.free[o]
                    },
            ),
            ..self
        }
    }

    /// The state after a request for `size` bytes was served.
    pub open spec fn allocated(self, size: nat) -> BuddyState {
        let order = self.request_order(size);
        self.carved(self.serving_order(size), order).add_live(
            self.serving_offset(size),
            order as usize,
        )
    }

    /// The state in which the buddies of the block that holds `offset` have left the lists of
    /// the orders from `order` to below `top`.
    pub open spec fn gathered(self, offset: usize, order: nat, top: nat) -> BuddyState {
        BuddyState {
            free: Seq::new(
                self.free.len(),
                |o: int|
                    if order <= o < top {
                        lists::swap_removed(
                            self.free[o],
                            self.free[o].index_of(
                                arith::buddy_of(
                                    arith::floor_to(offset as int, o as nat),
                                    o as nat,
                                ) as usize,
                            ),
                        )
                    } else {
                        self.free[o]
                    },
            ),
            ..self
        }
    }

    /// The order of the free block that freeing the live block at `offset` gives.
    pub open spec fn freed_order(self, offset: usize) -> nat {
        join_order(self.free, offset as int, self.live[offset] as nat)
    }

    /// The state after the live block at `offset` was freed.
    pub open spec fn freed(self, offset: usize) -> BuddyState {
        let top = self.freed_order(offset);
        self.drop_live(offset).gathered(offset, self.live[offset] as nat, top).push_free(
            top,
            arith::floor_to(offset as int, top) as usize,
        )
    }
}

/// Splitting the last free block of order `top` down to order `order` keeps the arena tiled.
pub proof fn lemma_carved_sound(s: BuddyState, top: nat, order: nat)
    requires
        s.wf(),
        s.min_order <= order <= top < s.free.len(),
        s.free[top as int].len() > 0,
    ensures
        s.carved(top, order).sound_with(
            Some(Block { offset: s.free[top as int].last() as int, order }),
        ),
    decreases top - order,
{
    let offset = s.free[top as int].last();
    if order == top {
        let i = s.free[top as int].len() - 1;
        buddy_state::lemma_hold_free(s, Block { offset: offset as int, order: top }, i);
        assert(s.free[top as int].drop_last() =~= lists::swap_removed(s.free[top as int], i));
        assert(s.carved(top, top) =~= s.take_free(top, i));
    } else {
        lemma_carved_sound(s, top, order + 1);
        let before = s.carved(top, order + 1);
        let h = Block { offset: offset as int, order: order + 1 };
        assert(before.blocks_with(Some(h)).contains(h));
        vstd::bits::lemma_usize_pow2_no_overflow(s.max_order);
        arith::lemma_pow2_double(order);
        let upper = (offset + pow2(order)) as usize;
        buddy_state::lemma_split_held(before, h, upper);
        assert(s.carved(top, order) =~= before.push_free(order, upper));
    }
}

/// `join_order` is the least order from `from` upwards at which the buddy is not free.
pub proof fn lemma_join_order_least(free: Seq<Seq<usize>>, offset: int, from: nat)
    requires
        from < free.len(),
    ensures
        from <= join_order(free, offset, from) < free.len(),
        forall|o: nat|
            from <= o < join_order(free, offset, from) ==> lists::holds(
                free[o as int],
                #[trigger] arith::buddy_of(arith::floor_to(offset, o), o),
            ),
        join_order(free, offset, from) + 1 < free.len() ==> !lists::holds(
            free[join_order(free, offset, from) as int],
            arith::buddy_of(
                arith::floor_to(offset, join_order(free, offset, from)),
                join_order(free, offset, from),
            ),
        ),
    decreases free.len() - from,
{
    if from + 1 < free.len() && lists::holds(
        free[from as int],
        arith::buddy_of(arith::floor_to(offset, from), from),
    ) {
        lemma_join_order_least(free, offset, from + 1);
    }
}

/// Joining a freed block with its free buddies up to order `top` keeps the arena tiled.
pub proof fn lemma_gathered_sound(s: BuddyState, offset: usize, top: nat)
    requires
        s.wf(),
        s.live.contains_key(offset),
        s.live[offset] <= top <= s.freed_order(offset),
    ensures
        top < s.free.len(),
        s.drop_live(offset).gathered(offset, s.live[offset] as nat, top).sound_with(
            Some(Block { offset: arith::floor_to(offset as int, top), order: top }),
        ),
    decreases top,
{
    let order = s.live[offset] as nat;
    let base = s.drop_live(offset);
    let b = Block { offset: offset as int, order };
    assert(s.is_live(b));
    assert(s.blocks().contains(b));
    lemma_join_order_least(s.free, offset as int, order);
    if top == order {
        buddy_state::lemma_live_to_held(s, b, offset);
        assert(base.gathered(offset, order, top) =~= base);
    } else {
        let k = (top - 1) as nat;
        lemma_gathered_sound(s, offset, k);
        let before = base.gathered(offset, order, k);
        let h = Block { offset: arith::floor_to(offset as int, k), order: k };
        arith::lemma_floor_floor(offset as int, k);
        let buddy = arith::buddy_of(arith::floor_to(offset as int, k), k);
        assert(lists::holds(s.free[k as int], buddy));
        let j = choose|j: int|
            0 <= j < s.free[k as int].len() && #[trigger] s.free[k as int][j] == buddy;
        assert(s.free[k as int].contains(buddy as usize));
        let i = s.free[k as int].index_of(buddy as usize);
        assert(before.free[k as int] == s.free[k as int]);
        buddy_state::lemma_join_held(before, h, i);
        assert(base.gathered(offset, order, top) =~= before.take_free(k, i));
    }
}

/// Serving a request keeps the invariant, and the block it gives was part of no live block.
pub proof fn lemma_allocated_wf(s: BuddyState, size: nat)
    requires
        s.wf(),
        s.can_serve(size),
    ensures
        s.allocated(size).wf(),
        !s.live.contains_key(s.serving_offset(size)),
        s.allocated(size).live_bytes() == s.live_bytes() + s.request_bytes(size),
        s.request_order(size) <= s.max_order,
{
    let order = s.request_order(size);
    let top = s.serving_order(size);
    let offset = s.serving_offset(size);
    arith::lemma_ceil_order_least(size, s.min_order);
    buddy_state::lemma_first_nonempty_least(s.free, order);
    lemma_carved_sound(s, top, order);
    buddy_state::lemma_held_to_live(
        s.carved(top, order),
        Block { offset: offset as int, order },
        offset,
        order as usize,
    );
}

/// Freeing a live block keeps the invariant.
pub proof fn lemma_freed_wf(s: BuddyState, offset: usize)
    requires
        s.wf(),
        s.live.contains_key(offset),
    ensures
        s.freed(offset).wf(),
        s.freed(offset).live_bytes() + pow2(s.live[offset] as nat) == s.live_bytes(),
{
    let order = s.live[offset] as nat;
    let top = s.freed_order(offset);
    let b = Block { offset: offset as int, order };
    assert(s.is_live(b));
    assert(s.blocks().contains(b));
    buddy_state::lemma_live_to_held(s, b, offset);
    lemma_join_order_least(s.free, offset as int, order);
    lemma_gathered_sound(s, offset, top);
    arith::lemma_floor_floor(offset as int, top);
    let before = s.drop_live(offset).gathered(offset, order, top);
    assert(before.free[top as int] == s.free[top as int]);
    buddy_state::lemma_held_to_free(
        before,
        Block { offset: arith::floor_to(offset as int, top), order: top },
        arith::floor_to(offset as int, top) as usize,
    );
}

/// `join_order` is the only order up to which every buddy is free and at which it is not.
proof fn lemma_join_order_is(free: Seq<Seq<usize>>, offset: int, from: nat, top: nat)
    requires
        from <= top < free.len(),
        forall|o: nat|
            from <= o < top ==> lists::holds(
                free[o as int],
                #[trigger] arith::buddy_of(arith::floor_to(offset, o), o),
            ),
        top + 1 < free.len() ==> !lists::holds(
            free[top as int],
            arith::buddy_of(arith::floor_to(offset, top), top),
        ),
    ensures
        join_order(free, offset, from) == top,
    decreases top - from,
{
    if from < top {
        assert(lists::holds(
            free[from as int],
            arith::buddy_of(arith::floor_to(offset, from), from),
        ));
        lemma_join_order_is(free, offset, from + 1, top);
    }
}

/// An offset that is aligned to one order is aligned to every lower order.
proof fn lemma_aligned_below(offset: int, top: nat, order: nat)
    requires
        0 <= offset,
        offset % (pow2(top) as int) == 0,
        order <= top,
    ensures
        offset % (pow2(order) as int) == 0,
        order < top ==> arith::buddy_of(offset, order) == offset + pow2(order),
    decreases top - order,
{
    if order < top {
        lemma_aligned_below(offset, top, order + 1);
        arith::lemma_lower_half(offset, order);
    }
}

/// Freeing the block that a request was just given restores the allocator exactly: every
/// split is undone, and the free lists are what they were, order included.
pub proof fn law_free_undoes_allocate(s: BuddyState, size: nat)
    requires
        s.wf(),
        s.can_serve(size),
    ensures
        s.allocated(size).live.contains_key(s.serving_offset(size)),
        s.allocated(size).freed(s.serving_offset(size)) == s,
{
    let order = s.request_order(size);
    let top = s.serving_order(size);
    let offset = s.serving_offset(size);
    let a = s.allocated(size);
    arith::lemma_ceil_order_least(size, s.min_order);
    buddy_state::lemma_first_nonempty_least(s.free, order);
    lemma_allocated_wf(s, size);
    let b = Block { offset: offset as int, order: top };
    assert(s.free[top as int][s.free[top as int].len() - 1] == b.offset);
    assert(lists::holds(s.free[top as int], b.offset));
    assert(s.is_free(b));
    assert(s.blocks().contains(b));
    assert forall|o: nat| order <= o <= top implies #[trigger] arith::floor_to(offset as int, o)
        == offset && (o < top ==> arith::buddy_of(offset as int, o) == offset + pow2(o)) by {
        lemma_aligned_below(offset as int, top, o);
    }
    vstd::bits::lemma_usize_pow2_no_overflow(s.max_order);
    assert forall|o: nat| order <= o < top implies lists::holds(
        a.free[o as int],
        #[trigger] arith::buddy_of(arith::floor_to(offset as int, o), o),
    ) && a.free[o as int] == seq![(offset + pow2(o)) as usize] && offset + pow2(o)
        <= usize::MAX by {
        arith::lemma_pow2_le(o, top);
        assert(arith::floor_to(offset as int, o) == offset);
        assert(s.free[o as int].len() == 0);
        assert(a.free[o as int] =~= seq![(offset + pow2(o)) as usize]);
        assert(a.free[o as int][0] == offset + pow2(o));
    }
    assert(arith::floor_to(offset as int, top) == offset);
    if top + 1 < s.free.len() {
        assert(!s.is_free(b.buddy()));
        if lists::holds(a.free[top as int], b.buddy().offset) {
            let i = choose|i: int|
                0 <= i < a.free[top as int].len() && #[trigger] a.free[top as int][i]
                    == b.buddy().offset;
            assert(s.free[top as int][i] == b.buddy().offset);
            assert(false);
        }
    }
    lemma_join_order_is(a.free, offset as int, order, top);
    let r = a.freed(offset);
    assert forall|o: int| 0 <= o < s.free.len() implies #[trigger] r.free[o] == s.free[o] by {
        if order <= o < top {
            let x = (offset + pow2(o as nat)) as usize;
            let buddy = arith::buddy_of(arith::floor_to(offset as int, o as nat), o as nat);
            assert(buddy == x);
            assert(a.free[o] == seq![x]);
            assert(a.free[o][0] == x);
            assert(a.free[o].contains(x));
            assert(s.free[o].len() == 0);
            assert(r.free[o] =~= s.free[o]);
        } else if o == top {
            assert(r.free[o] =~= s.free[o]);
        }
    }
    assert(r.free =~= s.free);
    assert(r.live =~= s.live);
}

/// Once nothing is allocated any more, the arena is one free block again, as it was at first.
pub proof fn law_all_freed_is_fresh(s: BuddyState)
    requires
        s.wf(),
        s.live.dom().is_empty(),
    ensures
        s == BuddyState::fresh(s.min_order, s.max_order),
{
    let whole = Block { offset: 0, order: s.max_order };
    let fresh = BuddyState::fresh(s.min_order, s.max_order);
    assert forall|b: Block| #[trigger] s.blocks().contains(b) implies s.is_free(b) && b == whole by {
        assert(!s.is_live(b));
        assert forall|c: Block| #[trigger] s.blocks().contains(c) && c.order < s.max_order implies
            !s.blocks().contains(c.buddy()) by {
            assert(!s.is_live(c));
            assert(!s.is_live(c.buddy()));
        }
        tiling::lemma_no_buddies_one_block(s.blocks(), b, s.min_order, s.max_order);
    }
    lemma_pow2_pos(s.max_order);
    assert(tiling::covered(s.blocks(), 0));
    let b = choose|b: Block| #[trigger] s.blocks().contains(b) && b.covers(0);
    assert(s.is_free(whole));
    assert forall|o: int| 0 <= o < s.free.len() implies #[trigger] s.free[o] == fresh.free[o] by {
        assert forall|i: int| 0 <= i < s.free[o].len() implies o == s.max_order && #[trigger] s.free[o][i]
            == 0 by {
            let c = Block { offset: s.free[o][i] as int, order: o as nat };
            assert(lists::holds(s.free[o], c.offset));
            assert(s.is_free(c));
            assert(s.blocks().contains(c));
        }
        if o == s.max_order {
            assert(lists::holds(s.free[o], 0));
            if s.free[o].len() >= 2 {
                assert(s.free[o][0] == s.free[o][1]);
            }
            assert(s.free[o] =~= seq![0usize]);
        } else {
            if s.free[o].len() > 0 {
                assert(s.free[o][0] == 0);
            }
            assert(s.free[o] =~= Seq::<usize>::empty());
        }
    }
    assert(s.free =~= fresh.free);
    assert(s.live =~= fresh.live);
}

/// Live blocks are aligned to their own size, lie inside the arena, and are no smaller than
/// the smallest block.
pub proof fn law_live_blocks_aligned(s: BuddyState, offset: usize)
    requires
        s.wf(),
        s.live.contains_key(offset),
    ensures
        offset as int % (pow2(s.live[offset] as nat) as int) == 0,
        offset + pow2(s.live[offset] as nat) <= s.arena_bytes(),
        s.min_order <= s.live[offset] <= s.max_order,
{
    let b = Block { offset: offset as int, order: s.live[offset] as nat };
    assert(s.is_live(b));
    assert(s.blocks().contains(b));
}

/// No two live blocks share a byte.
pub proof fn law_live_blocks_disjoint(s: BuddyState, a: usize, b: usize)
    requires
        s.wf(),
        s.live.contains_key(a),
        s.live.contains_key(b),
        a < b,
    ensures
        a + pow2(s.live[a] as nat) <= b,
{
    let x = Block { offset: a as int, order: s.live[a] as nat };
    let y = Block { offset: b as int, order: s.live[b] as nat };
    assert(s.is_live(x) && s.is_live(y));
    assert(s.blocks().contains(x) && s.blocks().contains(y));
    lemma_pow2_pos(x.order);
    lemma_pow2_pos(y.order);
}

/// No free block shares a byte with a live block.
pub proof fn law_free_and_live_disjoint(s: BuddyState, f: Block, l: Block)
    requires
        s.wf(),
        s.is_free(f),
        s.is_live(l),
    ensures
        f.disjoint(l),
{
    assert(s.blocks().contains(f) && s.blocks().contains(l));
}

/// No two free blocks are buddies: what can be joined has been joined.
pub proof fn law_buddies_are_joined(s: BuddyState, b: Block)
    requires
        s.wf(),
        s.is_free(b),
        b.order < s.max_order,
    ensures
        !s.is_free(b.buddy()),
{
}

/// Every byte of the arena is accounted for, as free or as allocated.
pub proof fn law_bytes_conserved(s: BuddyState)
    requires
        s.wf(),
    ensures
        s.free_bytes() + s.live_bytes() == s.arena_bytes(),
{
}

/// A request gets the least power of two that holds it and the smallest block. A request for
/// more than half of the smallest block wastes less than half of what it gets.
pub proof fn law_rounding_bounded(s: BuddyState, size: nat)
    ensures
        s.request_bytes(size) >= size,
        s.request_bytes(size) >= pow2(s.min_order),
        size <= pow2(s.min_order) ==> s.request_bytes(size) == pow2(s.min_order),
        2 * size > pow2(s.min_order) ==> s.request_bytes(size) < 2 * size,
        forall|o: nat| s.min_order <= o && size <= #[trigger] pow2(o) ==> s.request_bytes(size) <= pow2(o),
{
    arith::lemma_ceil_order_least(size, s.min_order);
    let order = s.request_order(size);
    arith::lemma_pow2_le(s.min_order, order);
    if size > pow2(s.min_order) {
        let o = (order - 1) as nat;
        arith::lemma_pow2_double(o);
        assert(s.min_order <= o < order ==> pow2(o) < size);
    }
    assert forall|o: nat| s.min_order <= o && size <= #[trigger] pow2(o) implies s.request_bytes(size)
        <= pow2(o) by {
        arith::lemma_pow2_le(order, o);
    }
}

/// Serving a request leaves the other live blocks as they are.
pub proof fn law_allocate_keeps_others(s: BuddyState, size: nat, other: usize)
    requires
        s.wf(),
        s.can_serve(size),
        s.live.contains_key(other),
    ensures
        other != s.serving_offset(size),
        s.allocated(size).live.contains_key(other),
        s.allocated(size).live[other] == s.live[other],
{
    lemma_allocated_wf(s, size);
}

/// Freeing a block leaves the other live blocks as they are, and the block cannot be freed again.
pub proof fn law_free_keeps_others(s: BuddyState, offset: usize, other: usize)
    requires
        s.wf(),
        s.live.contains_key(offset),
        other != offset,
    ensures
        !s.freed(offset).live.contains_key(offset),
        s.freed(offset).live.contains_key(other) <==> s.live.contains_key(other),
        s.live.contains_key(other) ==> s.freed(offset).live[other] == s.live[other],
{
}

/// A request is served exactly when some free block is large enough for it.
pub proof fn law_served_iff_block_free(s: BuddyState, size: nat)
    requires
        s.wf(),
    ensures
        s.can_serve(size) <==> exists|b: Block| #[trigger]
            s.is_free(b) && b.order >= s.request_order(size),
{
    let order = s.request_order(size);
    if order <= s.free.len() {
        buddy_state::lemma_first_nonempty_least(s.free, order);
    }
    if s.can_serve(size) {
        let top = s.serving_order(size);
        let b = Block { offset: s.serving_offset(size) as int, order: top };
        assert(s.free[top as int][s.free[top as int].len() - 1] == b.offset);
        assert(s.is_free(b));
    }
    assert forall|b: Block| #[trigger] s.is_free(b) && b.order >= order implies s.can_serve(size) by {
        assert(s.free[b.order as int].len() > 0);
    }
}

/// A fresh arena serves any request that is no larger than the arena, from its start.
pub proof fn law_fresh_serves_up_to_arena(min_order: nat, max_order: nat, size: nat)
    requires
        min_order <= max_order < usize::BITS,
    ensures
        BuddyState::fresh(min_order, max_order).can_serve(size) <==> size <= pow2(max_order),
        size <= pow2(max_order) ==> BuddyState::fresh(min_order, max_order).serving_offset(size) == 0,
{
    let s = BuddyState::fresh(min_order, max_order);
    let order = s.request_order(size);
    arith::lemma_ceil_order_least(size, min_order);
    if size <= pow2(max_order) {
        assert(order <= max_order);
        buddy_state::lemma_first_nonempty_least(s.free, order);
        assert(s.free[max_order as int].len() == 1);
    } else if order <= max_order {
        arith::lemma_pow2_le(order, max_order);
    }
}

/// The largest free block is part of the free bytes, and is all of them exactly when at most
/// one block is free.
pub proof fn law_largest_free_bounded(s: BuddyState)
    ensures
        s.largest_free() <= s.free_bytes(),
        s.largest_free() == s.free_bytes() <==> s.free_count() <= 1,
        s.largest_free() == 0 <==> s.free_count() == 0,
{
    lemma_largest_bounded(s.free, s.free.len());
}

proof fn lemma_largest_bounded(free: Seq<Seq<usize>>, n: nat)
    ensures
        buddy_state::largest_listed(free, n) <= buddy_state::listed_bytes(free, n),
        buddy_state::largest_listed(free, n) == buddy_state::listed_bytes(free, n)
            <==> buddy_state::listed_count(free, n) <= 1,
        buddy_state::largest_listed(free, n) == 0 <==> buddy_state::listed_count(free, n) == 0,
    decreases n,
{
    if n > 0 {
        let o = (n - 1) as nat;
        lemma_largest_bounded(free, o);
        lemma_pow2_pos(o);
        let p = pow2(o);
        let k = free[n - 1].len();
        assert(p * k >= p * 1 || k == 0) by (nonlinear_arith);
        assert(k >= 2 ==> p * k >= p * 2) by (nonlinear_arith);
        assert(k == 0 ==> p * k == 0) by (nonlinear_arith);
        assert(k == 1 ==> p * k == p) by (nonlinear_arith);
    }
}

/// The bytes of the blocks that `(order, count)` pairs stand for.
pub open spec fn counted_bytes(counts: Seq<(usize, usize)>) -> nat
    decreases counts.len(),
{
    if counts.len() == 0 {
        0
    } else {
        counted_bytes(counts.drop_last()) + pow2(counts.last().0 as nat) * counts.last().1 as nat
    }
}

/// The block counts list every order that has free blocks, ascending and each once, with the
/// number of its blocks, and together they make up the free bytes.
pub proof fn law_block_counts_complete(s: BuddyState)
    requires
        s.wf(),
    ensures
        ({
            let counts = buddy_state::block_counts(s.free, s.free.len());
            &&& forall|i: int, j: int|
                0 <= i < j < counts.len() ==> (#[trigger] counts[i]).0 < (#[trigger] counts[j]).0
            &&& forall|i: int|
                0 <= i < counts.len() ==> (#[trigger] counts[i]).0 < s.free.len() && counts[i].1 > 0
                    && counts[i].1 == s.free[counts[i].0 as int].len()
            &&& forall|o: int|
                0 <= o < s.free.len() && (#[trigger] s.free[o]).len() > 0 ==> counts.contains(
                    (o as usize, s.free[o].len() as usize),
                )
            &&& counted_bytes(counts) == s.free_bytes()
        }),
{
    vstd::bits::lemma_usize_pow2_no_overflow(s.max_order);
    assert forall|o: int| 0 <= o < s.free.len() implies (#[trigger] s.free[o]).len() <= usize::MAX by {
        lemma_list_bounded(s.free, s.free.len(), o);
    }
    lemma_block_counts(s.free, s.free.len());
}

proof fn lemma_list_bounded(free: Seq<Seq<usize>>, n: nat, o: int)
    requires
        0 <= o < n,
    ensures
        free[o].len() <= buddy_state::listed_bytes(free, n),
    decreases n,
{
    if o == n - 1 {
        lemma_pow2_pos(o as nat);
        let p = pow2(o as nat);
        let k = free[o].len();
        assert(k <= p * k) by (nonlinear_arith)
            requires
                p >= 1,
        ;
    } else {
        lemma_list_bounded(free, (n - 1) as nat, o);
    }
}

proof fn lemma_block_counts(free: Seq<Seq<usize>>, n: nat)
    requires
        n <= free.len() <= usize::MAX,
        forall|o: int| 0 <= o < free.len() ==> (#[trigger] free[o]).len() <= usize::MAX,
    ensures
        ({
            let counts = buddy_state::block_counts(free, n);
            &&& forall|i: int, j: int|
                0 <= i < j < counts.len() ==> (#[trigger] counts[i]).0 < (#[trigger] counts[j]).0
            &&& forall|i: int|
                0 <= i < counts.len() ==> (#[trigger] counts[i]).0 < n && counts[i].1 > 0
                    && counts[i].1 == free[counts[i].0 as int].len()
            &&& forall|o: int|
                0 <= o < n && (#[trigger] free[o]).len() > 0 ==> counts.contains(
                    (o as usize, free[o].len() as usize),
                )
            &&& counted_bytes(counts) == buddy_state::listed_bytes(free, n)
        }),
    decreases n,
{
    if n > 0 {
        let m = (n - 1) as nat;
        lemma_block_counts(free, m);
        let lower = buddy_state::block_counts(free, m);
        let counts = buddy_state::block_counts(free, n);
        let k = free[n - 1].len();
        if k > 0 {
            let item = ((n - 1) as usize, k as usize);
            assert(counts == lower.push(item));
            assert(counts.drop_last() =~= lower);
            assert(counts[lower.len() as int] == item);
            assert forall|o: int| 0 <= o < n && (#[trigger] free[o]).len() > 0 implies counts.contains(
                (o as usize, free[o].len() as usize),
            ) by {
                if o < m {
                    let j = choose|j: int|
                        0 <= j < lower.len() && lower[j] == (o as usize, free[o].len() as usize);
                    assert(counts[j] == lower[j]);
                }
            }
        } else {
            assert(pow2(m) * k == 0) by (nonlinear_arith)
                requires
                    k == 0,
            ;
        }
    }
}

/// Whether byte `x` belongs to a free block.
pub open spec fn byte_free(s: BuddyState, x: int) -> bool {
    exists|b: Block| #[trigger] s.is_free(b) && b.covers(x)
}

/// A free region starts exactly at the free bytes that no free byte stands before, so the free
/// regions are the longest runs of free bytes.
pub proof fn law_regions_are_runs(s: BuddyState, x: int)
    requires
        s.wf(),
    ensures
        (exists|b: Block| #[trigger] s.starts_region(b) && b.offset == x) <==> byte_free(s, x)
            && !byte_free(s, x - 1),
{
    if exists|b: Block| #[trigger] s.starts_region(b) && b.offset == x {
        let b = choose|b: Block| #[trigger] s.starts_region(b) && b.offset == x;
        lemma_pow2_pos(b.order);
        assert(s.is_free(b) && b.covers(x));
        if byte_free(s, x - 1) {
            let c = choose|c: Block| #[trigger] s.is_free(c) && c.covers(x - 1);
            assert(s.blocks().contains(b) && s.blocks().contains(c));
            assert(c.end() != b.offset);
            assert(!b.disjoint(c));
        }
    }
    if byte_free(s, x) && !byte_free(s, x - 1) {
        let b = choose|b: Block| #[trigger] s.is_free(b) && b.covers(x);
        assert(b.offset == x) by {
            if b.offset < x {
                assert(b.covers(x - 1));
            }
        }
        assert forall|c: Block| #[trigger] s.is_free(c) implies c.end() != b.offset by {
            lemma_pow2_pos(c.order);
            if c.end() == b.offset {
                assert(c.covers(x - 1));
            }
        }
        assert(s.starts_region(b));
    }
}

/// A fresh arena is one free region.
pub proof fn law_fresh_is_one_region(min_order: nat, max_order: nat)
    requires
        min_order <= max_order < usize::BITS,
    ensures
        BuddyState::fresh(min_order, max_order).free_regions() == 1,
{
    let s = BuddyState::fresh(min_order, max_order);
    let whole = Block { offset: 0, order: max_order };
    assert(s.free[max_order as int][0] == 0);
    assert(lists::holds(s.free[max_order as int], 0));
    assert(s.is_free(whole));
    assert forall|b: Block| #[trigger] s.is_free(b) implies b == whole by {
        assert(s.free[b.order as int].len() > 0);
    }
    lemma_pow2_pos(max_order);
    assert(s.starts_region(whole));
    assert(Set::new(|b: Block| s.starts_region(b)) =~= set![whole]);
}

/// There are no free regions exactly when no byte is free, and never more of them than free
/// blocks.
pub proof fn law_no_regions_iff_nothing_free(s: BuddyState)
    requires
        s.wf(),
    ensures
        s.free_regions() <= s.free_count(),
        s.free_regions() == 0 <==> s.free_bytes() == 0,
{
    buddy_state::lemma_free_regions_bounded(s);
    let starts = Set::new(|b: Block| s.starts_region(b));
    if s.free_bytes() > 0 {
        lemma_some_listed(s.free, s.free.len());
        let o = choose|o: int| 0 <= o < s.free.len() && (#[trigger] s.free[o]).len() > 0;
        let b = Block { offset: s.free[o][0] as int, order: o as nat };
        assert(lists::holds(s.free[o], b.offset));
        assert(s.is_free(b));
        let first = lemma_region_start(s, b);
        assert(starts.contains(first));
    }
}

proof fn lemma_some_listed(free: Seq<Seq<usize>>, n: nat)
    requires
        buddy_state::listed_bytes(free, n) > 0,
    ensures
        exists|o: int| 0 <= o < n && (#[trigger] free[o]).len() > 0,
    decreases n,
{
    if n > 0 && free[n - 1].len() == 0 {
        assert(pow2((n - 1) as nat) * free[n - 1].len() == 0) by (nonlinear_arith)
            requires
                free[n - 1].len() == 0,
        ;
        lemma_some_listed(free, (n - 1) as nat);
    }
}

/// From every free block, going back over free blocks that touch leads to the start of a region.
proof fn lemma_region_start(s: BuddyState, b: Block) -> (first: Block)
    requires
        s.wf(),
        s.is_free(b),
    ensures
        s.starts_region(first),
    decreases b.offset,
{
    assert(s.blocks().contains(b));
    if s.starts_region(b) {
        b
    } else {
        let c = choose|c: Block| #[trigger] s.is_free(c) && c.end() == b.offset;
        assert(s.blocks().contains(c));
        lemma_pow2_pos(c.order);
        lemma_region_start(s, c)
    }
}

/// A free block inside an aligned range without live bytes is all of the range.
proof fn lemma_block_fills_range(s: BuddyState, r: Block, b: Block)
    requires
        s.wf(),
        tiling::fits(r, 0, s.max_order),
        s.clear_of_live(r),
        s.is_free(b),
        r.offset <= b.offset,
        b.end() <= r.end(),
    ensures
        b.order >= r.order,
    decreases b.order,
{
    if b.order < r.order {
        assert(s.blocks().contains(b));
        tiling::lemma_family(b);
        arith::lemma_pow2_double(b.order);
        arith::lemma_nested(r.offset, r.order, b.parent().offset, b.order + 1, b.offset);
        let x = b.buddy().offset;
        lemma_pow2_pos(b.order);
        assert(b.buddy().covers(x));
        assert(b.parent().covers(x));
        assert(tiling::covered(s.blocks(), x));
        let c = choose|c: Block| #[trigger] s.blocks().contains(c) && c.covers(x);
        if s.is_live(c) {
            assert(r.disjoint(c));
            assert(false);
        }
        assert(s.is_free(c));
        if c.order > b.order {
            arith::lemma_nested(c.offset, c.order, b.parent().offset, b.order + 1, x);
            assert(!c.disjoint(b));
        } else if c.order == b.order {
            arith::lemma_nested(c.offset, c.order, x, b.order, x);
            assert(c == b.buddy());
        } else {
            arith::lemma_nested(r.offset, r.order, c.offset, c.order, x);
            lemma_block_fills_range(s, r, c);
        }
    }
}

/// An aligned range of the arena that shares no byte with a live block lies inside one free
/// block.
pub proof fn law_clear_range_in_free_block(s: BuddyState, r: Block) -> (b: Block)
    requires
        s.wf(),
        tiling::fits(r, 0, s.max_order),
        s.clear_of_live(r),
    ensures
        s.is_free(b),
        b.order >= r.order,
        b.offset <= r.offset,
        r.end() <= b.end(),
{
    lemma_pow2_pos(r.order);
    assert(r.covers(r.offset));
    assert(tiling::covered(s.blocks(), r.offset));
    let b = choose|b: Block| #[trigger] s.blocks().contains(b) && b.covers(r.offset);
    if s.is_live(b) {
        assert(r.disjoint(b));
        assert(false);
    }
    if b.order >= r.order {
        arith::lemma_nested(b.offset, b.order, r.offset, r.order, r.offset);
    } else {
        arith::lemma_nested(r.offset, r.order, b.offset, b.order, r.offset);
        lemma_block_fills_range(s, r, b);
    }
    b
}

/// A request is served exactly when some aligned range of the arena has as many bytes as the
/// request gets and shares none with a live block.
pub proof fn law_served_iff_room(s: BuddyState, size: nat)
    requires
        s.wf(),
    ensures
        s.can_serve(size) <==> exists|offset: int|
            {
                &&& 0 <= offset
                &&& offset % (s.request_bytes(size) as int) == 0
                &&& offset + s.request_bytes(size) <= s.arena_bytes()
                &&& #[trigger] s.clear_of_live(Block { offset, order: s.request_order(size) })
            },
{
    let order = s.request_order(size);
    if s.can_serve(size) {
        arith::lemma_ceil_order_least(size, s.min_order);
        buddy_state::lemma_first_nonempty_least(s.free, order);
        let top = s.serving_order(size);
        let offset = s.serving_offset(size) as int;
        let b = Block { offset, order: top };
        assert(s.free[top as int][s.free[top as int].len() - 1] == b.offset);
        assert(lists::holds(s.free[top as int], b.offset));
        assert(s.is_free(b));
        assert(s.blocks().contains(b));
        lemma_aligned_below(offset, top, order);
        arith::lemma_pow2_le(order, top);
        let r = Block { offset, order };
        assert forall|l: Block| #[trigger] s.is_live(l) implies r.disjoint(l) by {
            law_free_and_live_disjoint(s, b, l);
        }
        assert(s.clear_of_live(r));
    }
    if exists|offset: int|
        {
            &&& 0 <= offset
            &&& offset % (s.request_bytes(size) as int) == 0
            &&& offset + s.request_bytes(size) <= s.arena_bytes()
            &&& #[trigger] s.clear_of_live(Block { offset, order })
        } {
        let offset = choose|offset: int|
            {
                &&& 0 <= offset
                &&& offset % (s.request_bytes(size) as int) == 0
                &&& offset + s.request_bytes(size) <= s.arena_bytes()
                &&& #[trigger] s.clear_of_live(Block { offset, order })
            };
        let r = Block { offset, order };
        if order > s.max_order {
            lemma_pow2_strictly_increases(s.max_order, order);
        }
        let b = law_clear_range_in_free_block(s, r);
        law_served_iff_block_free(s, size);
        assert(s.is_free(b) && b.order >= order);
    }
}

/// A free block of one state is free in every state with the same live blocks.
proof fn lemma_free_block_shared(s: BuddyState, t: BuddyState, b: Block)
    requires
        s.wf(),
        t.wf(),
        s.max_order == t.max_order,
        s.live == t.live,
        s.is_free(b),
    ensures
        t.is_free(b),
{
    assert(s.blocks().contains(b));
    assert forall|l: Block| #[trigger] t.is_live(l) implies b.disjoint(l) by {
        assert(s.is_live(l));
        law_free_and_live_disjoint(s, b, l);
    }
    let c = law_clear_range_in_free_block(t, b);
    assert(t.blocks().contains(c));
    assert forall|l: Block| #[trigger] s.is_live(l) implies c.disjoint(l) by {
        assert(t.is_live(l));
        law_free_and_live_disjoint(t, c, l);
    }
    let d = law_clear_range_in_free_block(s, c);
    assert(s.blocks().contains(d));
    lemma_pow2_pos(b.order);
    lemma_pow2_pos(d.order);
    assert(!b.disjoint(d));
    assert(d == b);
    assert(c == b);
}

/// The live blocks determine the free blocks: it does not matter in which order blocks were
/// allocated and freed.
pub proof fn law_live_blocks_determine_free(s: BuddyState, t: BuddyState)
    requires
        s.wf(),
        t.wf(),
        s.min_order == t.min_order,
        s.max_order == t.max_order,
        s.live == t.live,
    ensures
        forall|b: Block| #[trigger] s.is_free(b) <==> t.is_free(b),
        buddy_state::block_counts(s.free, s.free.len()) == buddy_state::block_counts(
            t.free,
            t.free.len(),
        ),
        s.free_bytes() == t.free_bytes(),
        s.free_regions() == t.free_regions(),
{
    assert forall|b: Block| #[trigger] s.is_free(b) <==> t.is_free(b) by {
        if s.is_free(b) {
            lemma_free_block_shared(s, t, b);
        }
        if t.is_free(b) {
            lemma_free_block_shared(t, s, b);
        }
    }
    assert forall|o: int| 0 <= o < s.free.len() implies (#[trigger] s.free[o]).len()
        == t.free[o].len() by {
        assert forall|x: usize| #[trigger] s.free[o].contains(x) <==> t.free[o].contains(x) by {
            let b = Block { offset: x as int, order: o as nat };
            assert(s.is_free(b) <==> t.is_free(b));
            assert(s.free[o].contains(x) <==> lists::holds(s.free[o], x as int));
            assert(t.free[o].contains(x) <==> lists::holds(t.free[o], x as int));
        }
        assert(s.free[o].to_set() =~= t.free[o].to_set());
        assert(s.free[o].no_duplicates() && t.free[o].no_duplicates());
        s.free[o].unique_seq_to_set();
        t.free[o].unique_seq_to_set();
    }
    lemma_counts_by_length(s.free, t.free, s.free.len());
    assert forall|b: Block| #[trigger] s.starts_region(b) <==> t.starts_region(b) by {
        if s.starts_region(b) {
            assert forall|c: Block| #[trigger] t.is_free(c) implies c.end() != b.offset by {
                assert(s.is_free(c));
            }
        }
    }
    assert(Set::new(|b: Block| s.starts_region(b)) =~= Set::new(|b: Block| t.starts_region(b)));
}

proof fn lemma_counts_by_length(a: Seq<Seq<usize>>, b: Seq<Seq<usize>>, n: nat)
    requires
        n <= a.len() == b.len(),
        forall|o: int| 0 <= o < a.len() ==> (#[trigger] a[o]).len() == b[o].len(),
    ensures
        buddy_state::block_counts(a, n) == buddy_state::block_counts(b, n),
    decreases n,
{
    if n > 0 {
        lemma_counts_by_length(a, b, (n - 1) as nat);
        assert(a[n - 1].len() == b[n - 1].len());
    }
}

} // verus!
