//! What the operations of a buddy allocator do, in terms of its lists and its live blocks alone.

use crate::arith;
use crate::buddy_laws;
use crate::buddy_state;
use crate::buddy_state::BuddyState;
use crate::lists;
use crate::tiling::Block;
use crate::totals;
use vstd::arithmetic::power2::*;
use vstd::prelude::*;

verus! {

/// A fresh arena is one free block at offset zero, and nothing is live.
pub proof fn law_fresh_arena(min_order: nat, max_order: nat)
    ensures
        BuddyState::fresh(min_order, max_order).min_order == min_order,
        BuddyState::fresh(min_order, max_order).max_order == max_order,
        BuddyState::fresh(min_order, max_order).free.len() == max_order + 1,
        BuddyState::fresh(min_order, max_order).free[max_order as int] == seq![0usize],
        forall|o: int|
            0 <= o < max_order ==> (#[trigger] BuddyState::fresh(min_order, max_order).free[o]).len()
                == 0,
        forall|k: usize| !(#[trigger] BuddyState::fresh(min_order, max_order).live.contains_key(k)),
        BuddyState::fresh(min_order, max_order).arena_bytes() == pow2(max_order),
{
}

/// A block is free when its offset stands in the list of its order, and live when it is the block
/// recorded at its offset.
pub proof fn law_free_and_live_blocks(s: BuddyState, offset: usize, order: nat)
    ensures
        s.is_free(Block { offset: offset as int, order }) <==> order < s.free.len() && exists|i: int|
            0 <= i < s.free[order as int].len() && #[trigger] s.free[order as int][i] == offset,
        s.is_live(Block { offset: offset as int, order }) <==> s.live.contains_key(offset)
            && s.live[offset] == order,
{
}

/// A request gets the smallest block, or else the only power of two that holds it and whose half
/// does not.
pub proof fn law_request_rounds_up(s: BuddyState, size: nat)
    ensures
        s.request_order(size) >= s.min_order,
        s.request_bytes(size) == pow2(s.request_order(size)),
        size <= pow2(s.request_order(size)),
        s.request_order(size) == s.min_order || pow2((s.request_order(size) - 1) as nat) < size,
{
    arith::lemma_ceil_order_least(size, s.min_order);
    let order = s.request_order(size);
    if order > s.min_order {
        assert(s.min_order <= order - 1 < order);
    }
}

/// A request is refused exactly when every free block is smaller than it.
pub proof fn law_refused_iff_blocks_too_small(s: BuddyState, size: nat)
    requires
        s.wf(),
    ensures
        !s.can_serve(size) <==> forall|o: int|
            0 <= o < s.free.len() && (#[trigger] s.free[o]).len() > 0 ==> pow2(o as nat) < size,
{
    let order = s.request_order(size);
    arith::lemma_ceil_order_least(size, s.min_order);
    if order <= s.free.len() {
        buddy_state::lemma_first_nonempty_least(s.free, order);
    }
    if s.can_serve(size) {
        let top = s.serving_order(size);
        arith::lemma_pow2_le(order, top);
        assert(s.free[top as int].len() > 0);
    } else {
        assert forall|o: int| 0 <= o < s.free.len() && (#[trigger] s.free[o]).len() > 0 implies pow2(
            o as nat,
        ) < size by {
            let b = Block { offset: s.free[o][0] as int, order: o as nat };
            assert(lists::holds(s.free[o], b.offset));
            assert(s.is_free(b));
            assert(s.blocks().contains(b));
        }
    }
}

/// A served request takes the last listed of the smallest free blocks that hold it. That block is
/// split in halves down to the order of the request: the request gets the lowest part, which
/// becomes live, and the upper halves become free. All other blocks stay as they are.
///
/// Returns the order of the free block that was taken.
pub proof fn law_allocate_takes_smallest(s: BuddyState, size: nat) -> (top: nat)
    requires
        s.wf(),
        s.can_serve(size),
    ensures
        ({
            let at = s.serving_offset(size);
            let t = s.allocated(size);
            let order = t.live[at] as nat;
            &&& s.min_order <= order <= top <= s.max_order
            &&& size <= pow2(order)
            &&& order == s.min_order || pow2((order - 1) as nat) < size
            &&& s.free[top as int].len() > 0
            &&& at == s.free[top as int].last()
            &&& forall|o: int| order <= o < top ==> (#[trigger] s.free[o]).len() == 0
            &&& s.free[order as int].len() > 0 ==> top == order
            &&& t.free.len() == s.free.len()
            &&& t.free[top as int] == s.free[top as int].drop_last()
            &&& forall|o: int|
                order <= o < top ==> (#[trigger] t.free[o]).len() == 1 && t.free[o][0] == at + pow2(
                    o as nat,
                )
            &&& forall|o: int|
                0 <= o < s.free.len() && !(order <= o <= top) ==> #[trigger] t.free[o] == s.free[o]
            &&& !s.live.contains_key(at)
            &&& t.live == s.live.insert(at, order as usize)
            &&& t.min_order == s.min_order
            &&& t.max_order == s.max_order
        }),
{
    let at = s.serving_offset(size);
    let t = s.allocated(size);
    let order = s.request_order(size);
    let top = s.serving_order(size);
    law_request_rounds_up(s, size);
    arith::lemma_ceil_order_least(size, s.min_order);
    buddy_state::lemma_first_nonempty_least(s.free, order);
    buddy_laws::lemma_allocated_wf(s, size);
    let b = Block { offset: at as int, order: top };
    assert(s.free[top as int][s.free[top as int].len() - 1] == at);
    assert(lists::holds(s.free[top as int], at as int));
    assert(s.is_free(b));
    assert(s.blocks().contains(b));
    vstd::bits::lemma_usize_pow2_no_overflow(s.max_order);
    assert forall|o: int| order <= o < top implies (#[trigger] t.free[o]).len() == 1 && t.free[o][0]
        == at + pow2(o as nat) by {
        arith::lemma_pow2_le(o as nat, top);
        assert(s.free[o].len() == 0);
    }
    top
}

/// A served request is served from a free block that is large enough and than which no other
/// that is large enough is smaller.
///
/// Returns that block.
pub proof fn law_served_from_smallest(s: BuddyState, size: nat) -> (b: Block)
    requires
        s.wf(),
        s.can_serve(size),
    ensures
        s.is_free(b),
        b.offset == s.serving_offset(size),
        size <= pow2(b.order),
        forall|c: Block| #[trigger] s.is_free(c) && size <= pow2(c.order) ==> b.order <= c.order,
{
    let top = law_allocate_takes_smallest(s, size);
    let at = s.serving_offset(size);
    let order = s.allocated(size).live[at] as nat;
    assert(s.free[top as int][s.free[top as int].len() - 1] == at);
    assert(lists::holds(s.free[top as int], at as int));
    arith::lemma_pow2_le(order, top);
    assert forall|c: Block| #[trigger] s.is_free(c) && size <= pow2(c.order) implies top
        <= c.order by {
        assert(s.free[c.order as int].len() > 0);
        assert(s.blocks().contains(c));
        if c.order < order {
            arith::lemma_pow2_le(c.order, (order - 1) as nat);
        }
    }
    Block { offset: at as int, order: top }
}

/// A served request takes no free block when a smaller one would hold it, and where a block of
/// exactly its order is free, every larger free block stays free.
pub proof fn law_allocate_spares_larger(s: BuddyState, size: nat, larger: Block)
    requires
        s.wf(),
        s.can_serve(size),
        s.is_free(larger),
        exists|c: Block| #[trigger]
            s.is_free(c) && c.order >= s.request_order(size) && c.order < larger.order,
    ensures
        s.serving_offset(size) != larger.offset,
        s.allocated(size).is_free(larger),
{
    let top = law_allocate_takes_smallest(s, size);
    let at = s.serving_offset(size);
    let t = s.allocated(size);
    let order = s.request_order(size);
    let c = choose|c: Block| #[trigger]
        s.is_free(c) && c.order >= order && c.order < larger.order;
    assert(s.free[c.order as int].len() > 0);
    assert(top <= c.order);
    assert(t.free[larger.order as int] == s.free[larger.order as int]);
    let b = Block { offset: at as int, order: top };
    assert(s.free[top as int][s.free[top as int].len() - 1] == at);
    assert(lists::holds(s.free[top as int], at as int));
    assert(s.is_free(b));
    assert(s.blocks().contains(b) && s.blocks().contains(larger));
    lemma_pow2_pos(b.order);
    lemma_pow2_pos(larger.order);
    if at == larger.offset {
        assert(!b.disjoint(larger));
    }
}

/// Freeing a live block joins it with its buddy as long as the buddy is free, order by order. The
/// buddies leave their lists, the block that results is listed last in its own, and all other
/// blocks stay as they are.
///
/// Returns the order of the block that results, and the place of the buddy in the list of each
/// order below it.
pub proof fn law_free_joins_buddies(s: BuddyState, offset: usize) -> (joined: (nat, Seq<int>))
    requires
        s.wf(),
        s.live.contains_key(offset),
    ensures
        ({
            let t = s.freed(offset);
            let order = s.live[offset] as nat;
            let top = joined.0;
            let places = joined.1;
            &&& order <= top <= s.max_order
            &&& t.free.len() == s.free.len()
            &&& forall|o: int|
                order <= o < top ==> {
                    let p = pow2(o as nat) as int;
                    let start = offset as int - offset as int % p;
                    &&& 0 <= #[trigger] places[o] < s.free[o].len()
                    &&& s.free[o][places[o]] == if (offset as int / p) % 2 == 0 {
                        start + p
                    } else {
                        start - p
                    }
                    &&& t.free[o] == s.free[o].update(
                        places[o],
                        s.free[o].last(),
                    ).drop_last()
                }
            &&& top < s.max_order ==> forall|i: int|
                0 <= i < s.free[top as int].len() ==> {
                    let p = pow2(top) as int;
                    let start = offset as int - offset as int % p;
                    #[trigger] s.free[top as int][i] != if (offset as int / p) % 2 == 0 {
                        start + p
                    } else {
                        start - p
                    }
                }
            &&& t.free[top as int].len() == s.free[top as int].len() + 1
            &&& t.free[top as int].drop_last() == s.free[top as int]
            &&& t.free[top as int].last() == offset as int - offset as int % (pow2(top) as int)
            &&& forall|o: int|
                0 <= o < s.free.len() && !(order <= o <= top) ==> #[trigger] t.free[o] == s.free[o]
            &&& t.live == s.live.remove(offset)
            &&& t.min_order == s.min_order
            &&& t.max_order == s.max_order
        }),
{
    let order = s.live[offset] as nat;
    let top = s.freed_order(offset);
    let t = s.freed(offset);
    let places = Seq::new(
        s.free.len(),
        |o: int|
            s.free[o].index_of(
                arith::buddy_of(arith::floor_to(offset as int, o as nat), o as nat) as usize,
            ),
    );
    let b = Block { offset: offset as int, order };
    assert(s.is_live(b));
    assert(s.blocks().contains(b));
    buddy_laws::lemma_join_order_least(s.free, offset as int, order);
    assert forall|o: int| order <= o < top implies {
        let p = pow2(o as nat) as int;
        let start = offset as int - offset as int % p;
        &&& 0 <= #[trigger] places[o] < s.free[o].len()
        &&& s.free[o][places[o]] == if (offset as int / p) % 2 == 0 {
            start + p
        } else {
            start - p
        }
        &&& t.free[o] == s.free[o].update(places[o], s.free[o].last()).drop_last()
    } by {
        arith::lemma_floor_floor(offset as int, o as nat);
        let buddy = arith::buddy_of(arith::floor_to(offset as int, o as nat), o as nat);
        assert(lists::holds(s.free[o], buddy));
        let j = choose|j: int| 0 <= j < s.free[o].len() && #[trigger] s.free[o][j] == buddy;
        assert(s.free[o].contains(buddy as usize));
    }
    arith::lemma_floor_floor(offset as int, top);
    assert(t.free[top as int] == s.free[top as int].push(
        arith::floor_to(offset as int, top) as usize,
    ));
    assert(t.free[top as int].drop_last() =~= s.free[top as int]);
    assert(t.live =~= s.live.remove(offset));
    if top < s.max_order {
        let p = pow2(top) as int;
        let start = offset as int - offset as int % p;
        let mate = if (offset as int / p) % 2 == 0 {
            start + p
        } else {
            start - p
        };
        assert(mate == arith::buddy_of(arith::floor_to(offset as int, top), top));
        assert(!lists::holds(s.free[top as int], mate));
    }
    (top, places)
}

/// A byte of the arena is in a free block or in a live block, and never in both.
pub proof fn law_byte_free_or_live(s: BuddyState, x: int)
    requires
        s.wf(),
        0 <= x < pow2(s.max_order),
    ensures
        (exists|o: int, i: int|
            0 <= o < s.free.len() && 0 <= i < s.free[o].len() && (#[trigger] s.free[o][i]) <= x
                < s.free[o][i] + pow2(o as nat)) <==> !(exists|k: usize| #[trigger]
            s.live.contains_key(k) && k <= x < k + pow2(s.live[k] as nat)),
{
    assert(crate::tiling::covered(s.blocks(), x));
    let b = choose|b: Block| #[trigger] s.blocks().contains(b) && b.covers(x);
    if s.is_free(b) {
        let i = choose|i: int|
            0 <= i < s.free[b.order as int].len() && #[trigger] s.free[b.order as int][i] == b.offset;
        assert(s.free[b.order as int][i] <= x);
        if exists|k: usize| #[trigger]
            s.live.contains_key(k) && k <= x < k + pow2(s.live[k] as nat) {
            let k = choose|k: usize| #[trigger]
                s.live.contains_key(k) && k <= x < k + pow2(s.live[k] as nat);
            let l = Block { offset: k as int, order: s.live[k] as nat };
            assert(s.is_live(l));
            buddy_laws::law_free_and_live_disjoint(s, b, l);
        }
    } else {
        assert(s.is_live(b));
        assert(s.live.contains_key(b.offset as usize));
        if exists|o: int, i: int|
            0 <= o < s.free.len() && 0 <= i < s.free[o].len() && (#[trigger] s.free[o][i]) <= x
                < s.free[o][i] + pow2(o as nat) {
            let (o, i) = choose|o: int, i: int|
                0 <= o < s.free.len() && 0 <= i < s.free[o].len() && (#[trigger] s.free[o][i]) <= x
                    < s.free[o][i] + pow2(o as nat);
            let f = Block { offset: s.free[o][i] as int, order: o as nat };
            assert(lists::holds(s.free[o], f.offset));
            assert(s.is_free(f));
            buddy_laws::law_free_and_live_disjoint(s, f, b);
        }
    }
}

/// Two free blocks of one order are not the two halves of a block of the next order.
pub proof fn law_halves_not_both_free(s: BuddyState, o: int, i: int, j: int)
    requires
        s.wf(),
        0 <= o < s.max_order,
        0 <= i < s.free[o].len(),
        0 <= j < s.free[o].len(),
        s.free[o][i] as int % (pow2((o + 1) as nat) as int) == 0,
    ensures
        s.free[o][j] != s.free[o][i] + pow2(o as nat),
{
    let b = Block { offset: s.free[o][i] as int, order: o as nat };
    assert(lists::holds(s.free[o], b.offset));
    assert(s.is_free(b));
    arith::lemma_lower_half(b.offset, b.order);
    if s.free[o][j] == s.free[o][i] + pow2(o as nat) {
        assert(lists::holds(s.free[o], b.buddy().offset));
        assert(s.is_free(b.buddy()));
    }
}

/// The allocated bytes are zero when nothing is live, and otherwise those of any live block and
/// of the others.
pub proof fn law_live_bytes_add_up(s: BuddyState)
    requires
        s.live.dom().finite(),
    ensures
        s.live.dom().is_empty() ==> s.live_bytes() == 0,
        forall|k: usize| #[trigger]
            s.live.contains_key(k) ==> s.live_bytes() == pow2(s.live[k] as nat) + (BuddyState {
                live: s.live.remove(k),
                ..s
            }).live_bytes(),
{
    assert forall|k: usize| #[trigger] s.live.contains_key(k) implies s.live_bytes() == pow2(
        s.live[k] as nat,
    ) + (BuddyState { live: s.live.remove(k), ..s }).live_bytes() by {
        totals::lemma_total_remove(s.live, buddy_state::order_size(), k);
    }
}

/// Free bytes and allocated bytes make up the `2^max_order` bytes of the arena.
pub proof fn law_bytes_make_up_arena(s: BuddyState)
    requires
        s.wf(),
    ensures
        s.free_bytes() + s.live_bytes() == pow2(s.max_order),
{
}

/// The largest free block is as large as some free block and no smaller than any, and zero when
/// nothing is free.
pub proof fn law_largest_free_attained(s: BuddyState)
    ensures
        forall|o: int|
            0 <= o < s.free.len() && (#[trigger] s.free[o]).len() > 0 ==> pow2(o as nat)
                <= s.largest_free(),
        (exists|o: int| 0 <= o < s.free.len() && (#[trigger] s.free[o]).len() > 0) ==> exists|o: int|
            0 <= o < s.free.len() && (#[trigger] s.free[o]).len() > 0 && pow2(o as nat)
                == s.largest_free(),
        (forall|o: int| 0 <= o < s.free.len() ==> (#[trigger] s.free[o]).len() == 0)
            ==> s.largest_free() == 0,
        s.free_count() == 0 <==> forall|o: int|
            0 <= o < s.free.len() ==> (#[trigger] s.free[o]).len() == 0,
{
    lemma_largest_attained(s.free, s.free.len());
}

proof fn lemma_largest_attained(free: Seq<Seq<usize>>, n: nat)
    requires
        n <= free.len(),
    ensures
        forall|o: int|
            0 <= o < n && (#[trigger] free[o]).len() > 0 ==> pow2(o as nat)
                <= buddy_state::largest_listed(free, n),
        (exists|o: int| 0 <= o < n && (#[trigger] free[o]).len() > 0) ==> exists|o: int|
            0 <= o < n && (#[trigger] free[o]).len() > 0 && pow2(o as nat)
                == buddy_state::largest_listed(free, n),
        (forall|o: int| 0 <= o < n ==> (#[trigger] free[o]).len() == 0)
            ==> buddy_state::largest_listed(free, n) == 0,
        buddy_state::listed_count(free, n) == 0 <==> forall|o: int|
            0 <= o < n ==> (#[trigger] free[o]).len() == 0,
    decreases n,
{
    if n > 0 {
        lemma_largest_attained(free, (n - 1) as nat);
        if free[n - 1].len() > 0 {
            assert forall|o: int| 0 <= o < n && (#[trigger] free[o]).len() > 0 implies pow2(o as nat)
                <= buddy_state::largest_listed(free, n) by {
                arith::lemma_pow2_le(o as nat, (n - 1) as nat);
            }
        }
    }
}

/// The number of free regions is the number of free bytes that no free byte stands before.
pub proof fn law_free_regions_counted(s: BuddyState)
    requires
        s.wf(),
    ensures
        ({
            let free = |x: int|
                exists|o: int, i: int|
                    0 <= o < s.free.len() && 0 <= i < s.free[o].len() && (#[trigger] s.free[o][i])
                        <= x < s.free[o][i] + pow2(o as nat);
            let runs = Set::new(|x: int| free(x) && !free(x - 1));
            runs.finite() && runs.len() == s.free_regions()
        }),
{
    let free = |x: int|
        exists|o: int, i: int|
            0 <= o < s.free.len() && 0 <= i < s.free[o].len() && (#[trigger] s.free[o][i]) <= x
                < s.free[o][i] + pow2(o as nat);
    let runs = Set::new(|x: int| free(x) && !free(x - 1));
    let starts = Set::new(|b: Block| s.starts_region(b));
    let f = |b: Block| b.offset;
    buddy_state::lemma_free_regions_bounded(s);
    assert forall|x: int| free(x) == buddy_laws::byte_free(s, x) by {
        if free(x) {
            let (o, i) = choose|o: int, i: int|
                0 <= o < s.free.len() && 0 <= i < s.free[o].len() && (#[trigger] s.free[o][i]) <= x
                    < s.free[o][i] + pow2(o as nat);
            let b = Block { offset: s.free[o][i] as int, order: o as nat };
            assert(lists::holds(s.free[o], b.offset));
            assert(s.is_free(b) && b.covers(x));
        }
        if buddy_laws::byte_free(s, x) {
            let b = choose|b: Block| #[trigger] s.is_free(b) && b.covers(x);
            let i = choose|i: int|
                0 <= i < s.free[b.order as int].len() && #[trigger] s.free[b.order as int][i]
                    == b.offset;
            assert(s.free[b.order as int][i] <= x);
        }
    }
    assert forall|x: int| #[trigger] runs.contains(x) <==> starts.map(f).contains(x) by {
        buddy_laws::law_regions_are_runs(s, x);
        assert(free(x) == buddy_laws::byte_free(s, x));
        assert(free(x - 1) == buddy_laws::byte_free(s, x - 1));
        if runs.contains(x) {
            let b = choose|b: Block| #[trigger] s.starts_region(b) && b.offset == x;
            assert(starts.contains(b) && f(b) == x);
        }
        if starts.map(f).contains(x) {
            let b = choose|b: Block| starts.contains(b) && f(b) == x;
            assert(s.starts_region(b) && b.offset == x);
        }
    }
    assert(starts.map(f) =~= runs);
    assert(vstd::relations::injective_on(f, starts)) by {
        assert forall|a: Block, b: Block|
            starts.contains(a) && starts.contains(b) && #[trigger] f(a) == #[trigger] f(b) implies a
            == b by {
            assert(s.is_free(a) && s.is_free(b));
            assert(s.blocks().contains(a) && s.blocks().contains(b));
            lemma_pow2_pos(a.order);
            lemma_pow2_pos(b.order);
            if a != b {
                assert(a.disjoint(b));
            }
        }
    }
    vstd::set_lib::lemma_map_size(starts, runs, f);
}

} // verus!
