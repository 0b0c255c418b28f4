//! What a buddy allocator is: free lists by order, live blocks, and their invariant.

use crate::arith;
use crate::lists;
use crate::tiling;
use crate::tiling::Block;
use crate::totals;
use vstd::arithmetic::power2::*;
use vstd::prelude::*;

verus! {

/// The mathematical state of a buddy allocator over `2^max_order` bytes.
#[verifier::ext_equal]
pub struct BuddyState {
    /// Order of the smallest block.
    pub min_order: nat,
    /// Order of the whole arena.
    pub max_order: nat,
    /// `free[o]` lists the offsets of the free blocks of order `o`, oldest first.
    pub free: Seq<Seq<usize>>,
    /// The order of the live block at each offset that has one.
    pub live: Map<usize, usize>,
}

/// The bytes of a block of the given order.
pub open spec fn order_size() -> spec_fn(usize) -> nat {
    |order: usize| pow2(order as nat)
}

/// The bytes of the blocks in the first `n` lists.
pub open spec fn listed_bytes(free: Seq<Seq<usize>>, n: nat) -> nat
    decreases n,
{
    if n == 0 {
        0
    } else {
        listed_bytes(free, (n - 1) as nat) + pow2((n - 1) as nat) * free[n - 1].len()
    }
}

/// The orders below `n` that have free blocks, ascending, each with the number of them.
pub open spec fn block_counts(free: Seq<Seq<usize>>, n: nat) -> Seq<(usize, usize)>
    decreases n,
{
    if n == 0 {
        Seq::empty()
    } else {
        let lower = block_counts(free, (n - 1) as nat);
        if free[n - 1].len() > 0 {
            lower.push(((n - 1) as usize, free[n - 1].len() as usize))
        } else {
            lower
        }
    }
}

/// The number of blocks in the first `n` lists.
pub open spec fn listed_count(free: Seq<Seq<usize>>, n: nat) -> nat
    decreases n,
{
    if n == 0 {
        0
    } else {
        listed_count(free, (n - 1) as nat) + free[n - 1].len()
    }
}

/// The bytes of the largest block in the first `n` lists, or zero if they are empty.
pub open spec fn largest_listed(free: Seq<Seq<usize>>, n: nat) -> nat
    decreases n,
{
    if n == 0 {
        0
    } else if free[n - 1].len() > 0 {
        pow2((n - 1) as nat)
    } else {
        largest_listed(free, (n - 1) as nat)
    }
}

/// The least order from `from` upwards with a free block, or the number of lists.
pub open spec fn first_nonempty(free: Seq<Seq<usize>>, from: nat) -> nat
    decreases free.len() - from,
{
    if from >= free.len() {
        free.len()
    } else if free[from as int].len() > 0 {
        from
    } else {
        first_nonempty(free, from + 1)
    }
}

impl BuddyState {
    /// The state of an arena with nothing allocated.
    pub open spec fn fresh(min_order: nat, max_order: nat) -> BuddyState {
        BuddyState {
            min_order,
            max_order,
            free: Seq::new(
                max_order + 1,
                |o: int| if o == max_order { seq![0usize] } else { Seq::<usize>::empty() },
            ),
            live: Map::empty(),
        }
    }

    /// Whether `b` stands in a free list.
    pub open spec fn is_free(self, b: Block) -> bool {
        b.order < self.free.len() && lists::holds(self.free[b.order as int], b.offset)
    }

    /// Whether `b` is allocated.
    pub open spec fn is_live(self, b: Block) -> bool {
        &&& 0 <= b.offset <= usize::MAX
        &&& self.live.contains_key(b.offset as usize)
        &&& self.live[b.offset as usize] == b.order
    }

    /// All blocks, free and live.
    pub open spec fn blocks(self) -> Set<Block> {
        Set::new(|b: Block| self.is_free(b) || self.is_live(b))
    }

    /// All blocks together with a block that is neither free nor live, if there is one.
    pub open spec fn blocks_with(self, held: Option<Block>) -> Set<Block> {
        match held {
            Some(h) => self.blocks().insert(h),
            None => self.blocks(),
        }
    }

    /// The bytes of the live blocks.
    pub open spec fn live_bytes(self) -> nat {
        totals::total(self.live, order_size())
    }

    /// The bytes of the free blocks.
    pub open spec fn free_bytes(self) -> nat {
        listed_bytes(self.free, self.free.len())
    }

    /// The number of free blocks.
    pub open spec fn free_count(self) -> nat {
        listed_count(self.free, self.free.len())
    }

    /// The bytes of the largest free block, or zero if nothing is free.
    pub open spec fn largest_free(self) -> nat {
        largest_listed(self.free, self.free.len())
    }

    /// Whether a run of free blocks that touch begins with `b`: no free block ends where it
    /// starts.
    pub open spec fn starts_region(self, b: Block) -> bool {
        self.is_free(b) && forall|c: Block| #[trigger] self.is_free(c) ==> c.end() != b.offset
    }

    /// The number of non-contiguous free regions.
    pub open spec fn free_regions(self) -> nat {
        Set::new(|b: Block| self.starts_region(b)).len()
    }

    /// Whether `b` shares no byte with a live block.
    pub open spec fn clear_of_live(self, b: Block) -> bool {
        forall|l: Block| #[trigger] self.is_live(l) ==> b.disjoint(l)
    }

    /// The bytes of the arena.
    pub open spec fn arena_bytes(self) -> nat {
        pow2(self.max_order)
    }

    /// The lists are well-shaped: no block occurs twice, and no two free blocks are buddies.
    pub open spec fn shaped(self) -> bool {
        &&& self.min_order <= self.max_order < usize::BITS
        &&& self.free.len() == self.max_order + 1
        &&& self.live.dom().finite()
        &&& forall|o: int| 0 <= o < self.free.len() ==> (#[trigger] self.free[o]).no_duplicates()
        &&& forall|b: Block| #[trigger] self.is_free(b) ==> !self.is_live(b)
        &&& forall|b: Block| #[trigger]
            self.is_free(b) && b.order < self.max_order ==> !self.is_free(b.buddy())
    }

    /// The invariant while `held` is neither free nor live: the blocks tile the arena.
    pub open spec fn sound_with(self, held: Option<Block>) -> bool {
        &&& self.shaped()
        &&& tiling::tiles(self.blocks_with(held), self.min_order, self.max_order)
        &&& held matches Some(h) ==> !self.blocks().contains(h)
        &&& self.live_bytes() + self.free_bytes() + (match held {
            Some(h) => pow2(h.order),
            None => 0,
        }) == self.arena_bytes()
    }

    /// The invariant: free and live blocks tile the arena, and no two free blocks are buddies.
    pub open spec fn wf(self) -> bool {
        self.sound_with(None)
    }

    /// The state with `offset` listed last among the free blocks of an order.
    pub open spec fn push_free(self, order: nat, offset: usize) -> BuddyState {
        BuddyState {
            free: self.free.update(order as int, self.free[order as int].push(offset)),
            ..self
        }
    }

    /// The state without the `i`-th free block of an order.
    pub open spec fn take_free(self, order: nat, i: int) -> BuddyState {
        BuddyState {
            free: self.free.update(order as int, lists::swap_removed(self.free[order as int], i)),
            ..self
        }
    }

    /// The state with the block of the given order at `offset` live.
    pub open spec fn add_live(self, offset: usize, order: usize) -> BuddyState {
        BuddyState { live: self.live.insert(offset, order), ..self }
    }

    /// The state without the live block at `offset`.
    pub open spec fn drop_live(self, offset: usize) -> BuddyState {
        BuddyState { live: self.live.remove(offset), ..self }
    }
}

/// Replacing one list changes the bytes by the change of its length.
pub proof fn lemma_listed_bytes_update(free: Seq<Seq<usize>>, o: int, list: Seq<usize>, n: nat)
    requires
        0 <= o < free.len(),
        n <= free.len(),
    ensures
        listed_bytes(free.update(o, list), n) == listed_bytes(free, n) + if o < n {
            pow2(o as nat) * list.len() - pow2(o as nat) * free[o].len()
        } else {
            0
        },
    decreases n,
{
    if n > 0 {
        lemma_listed_bytes_update(free, o, list, (n - 1) as nat);
    }
}

/// `first_nonempty` is the least order from `from` upwards with a free block.
pub proof fn lemma_first_nonempty_least(free: Seq<Seq<usize>>, from: nat)
    requires
        from <= free.len(),
    ensures
        from <= first_nonempty(free, from) <= free.len(),
        forall|o: int| from <= o < first_nonempty(free, from) ==> (#[trigger] free[o]).len() == 0,
        first_nonempty(free, from) < free.len() ==> free[first_nonempty(free, from) as int].len() > 0,
    decreases free.len() - from,
{
    if from < free.len() && free[from as int].len() == 0 {
        lemma_first_nonempty_least(free, from + 1);
    }
}

/// Pushing a free block adds it to the blocks and nothing else.
proof fn lemma_push_free(s: BuddyState, b: Block, offset: usize)
    requires
        s.shaped(),
        b.offset == offset,
        b.order <= s.max_order,
        !s.is_free(b),
        !s.is_live(b),
        b.order < s.max_order ==> !s.is_free(b.buddy()),
        b.aligned(),
        forall|c: Block| #[trigger] s.is_free(c) ==> c.aligned(),
    ensures
        s.push_free(b.order, offset).shaped(),
        s.push_free(b.order, offset).blocks() == s.blocks().insert(b),
        s.push_free(b.order, offset).free_bytes() == s.free_bytes() + pow2(b.order),
{
    let after = s.push_free(b.order, offset);
    let o = b.order as int;
    lists::lemma_push(s.free[o], offset);
    lemma_listed_bytes_update(s.free, o, after.free[o], s.free.len());
    assert(pow2(b.order) * (s.free[o].len() + 1) == pow2(b.order) * s.free[o].len() + pow2(b.order))
        by (nonlinear_arith);
    tiling::lemma_family(b);
    assert forall|c: Block| #[trigger] after.is_free(c) <==> s.is_free(c) || c == b by {
        if c.order == b.order {
            assert(lists::holds(after.free[o], c.offset) <==> lists::holds(s.free[o], c.offset) || c.offset == offset);
        }
    }
    assert forall|c: Block| #[trigger] after.is_live(c) == s.is_live(c) by {}
    assert(after.blocks() =~= s.blocks().insert(b));
    assert forall|c: Block| #[trigger] after.is_free(c) && c.order < after.max_order implies !after.is_free(
        c.buddy(),
    ) by {
        if c != b && c.buddy() == b {
            tiling::lemma_family(c);
        }
    }
}

/// Taking a free block removes it from the blocks and nothing else.
proof fn lemma_take_free(s: BuddyState, b: Block, i: int)
    requires
        s.shaped(),
        b.order <= s.max_order,
        0 <= i < s.free[b.order as int].len(),
        b.offset == s.free[b.order as int][i],
    ensures
        s.is_free(b),
        s.take_free(b.order, i).shaped(),
        s.take_free(b.order, i).blocks() == s.blocks().remove(b),
        s.take_free(b.order, i).free_bytes() + pow2(b.order) == s.free_bytes(),
{
    let after = s.take_free(b.order, i);
    let o = b.order as int;
    lists::lemma_take(s.free[o], i);
    lemma_listed_bytes_update(s.free, o, after.free[o], s.free.len());
    let n = s.free[o].len();
    assert(pow2(b.order) * n == pow2(b.order) * ((n - 1) as nat) + pow2(b.order)) by (nonlinear_arith)
        requires
            n >= 1,
    ;
    assert(lists::holds(s.free[o], b.offset));
    assert(s.is_free(b));
    assert(!s.is_live(b));
    assert forall|c: Block| #[trigger] after.is_free(c) <==> s.is_free(c) && c != b by {
        if c.order == b.order {
            assert(lists::holds(after.free[o], c.offset) <==> lists::holds(s.free[o], c.offset) && c.offset
                != s.free[o][i]);
        }
    }
    assert forall|c: Block| #[trigger] after.is_live(c) == s.is_live(c) by {}
    assert(after.blocks() =~= s.blocks().remove(b));
}

/// A free block can be held.
pub proof fn lemma_hold_free(s: BuddyState, b: Block, i: int)
    requires
        s.wf(),
        b.order <= s.max_order,
        0 <= i < s.free[b.order as int].len(),
        b.offset == s.free[b.order as int][i],
    ensures
        s.take_free(b.order, i).sound_with(Some(b)),
{
    lemma_take_free(s, b, i);
    let after = s.take_free(b.order, i);
    assert(s.blocks().contains(b));
    assert(after.blocks_with(Some(b)) =~= s.blocks());
}

/// A held block can be split: its lower half stays held, its upper half is free.
pub proof fn lemma_split_held(s: BuddyState, h: Block, upper: usize)
    requires
        s.sound_with(Some(h)),
        h.order > s.min_order,
        upper == h.upper().offset,
    ensures
        s.push_free(h.upper().order, upper).sound_with(Some(h.lower())),
{
    let b = h.upper();
    let before = s.blocks_with(Some(h));
    assert(before.contains(h));
    tiling::lemma_halves(h);
    arith::lemma_pow2_double(b.order);
    tiling::lemma_split_tiles(before, h, s.min_order, s.max_order);
    assert forall|c: Block| #[trigger] s.is_free(c) implies c.aligned() by {
        assert(before.contains(c));
    }
    assert(!s.blocks().contains(b));
    assert(!s.blocks().contains(h.lower()));
    lemma_push_free(s, b, upper);
    let after = s.push_free(b.order, upper);
    assert(after.blocks_with(Some(h.lower())) =~= tiling::split(before, h));
}

/// A held block can be made live.
pub proof fn lemma_held_to_live(s: BuddyState, h: Block, offset: usize, order: usize)
    requires
        s.sound_with(Some(h)),
        h.offset == offset,
        h.order == order,
    ensures
        !s.live.contains_key(offset),
        s.add_live(offset, order).wf(),
        s.add_live(offset, order).live_bytes() == s.live_bytes() + pow2(order as nat),
{
    let before = s.blocks_with(Some(h));
    assert(before.contains(h));
    if s.live.contains_key(offset) {
        let c = Block { offset: offset as int, order: s.live[offset] as nat };
        assert(s.is_live(c));
        assert(s.blocks().contains(c));
        assert(before.contains(c));
        lemma_pow2_pos(c.order);
        lemma_pow2_pos(h.order);
        assert(!c.disjoint(h));
        assert(false);
    }
    let after = s.add_live(offset, order);
    assert forall|c: Block| #[trigger] after.is_live(c) <==> s.is_live(c) || c == h by {}
    assert forall|c: Block| #[trigger] after.is_free(c) == s.is_free(c) by {}
    assert(after.blocks() =~= before);
    totals::lemma_total_insert(s.live, order_size(), offset, order);
}

/// A live block can be held.
pub proof fn lemma_live_to_held(s: BuddyState, h: Block, offset: usize)
    requires
        s.wf(),
        s.live.contains_key(offset),
        h.offset == offset,
        h.order == s.live[offset],
    ensures
        s.drop_live(offset).sound_with(Some(h)),
        s.drop_live(offset).live_bytes() + pow2(h.order) == s.live_bytes(),
{
    assert(s.is_live(h));
    let after = s.drop_live(offset);
    assert forall|c: Block| #[trigger] after.is_live(c) <==> s.is_live(c) && c != h by {}
    assert forall|c: Block| #[trigger] after.is_free(c) == s.is_free(c) by {}
    assert(s.blocks().contains(h));
    assert(after.blocks_with(Some(h)) =~= s.blocks());
    totals::lemma_total_remove(s.live, order_size(), offset);
}

/// A held block whose buddy is free can be joined with it.
pub proof fn lemma_join_held(s: BuddyState, h: Block, i: int)
    requires
        s.sound_with(Some(h)),
        h.order < s.max_order,
        0 <= i < s.free[h.order as int].len(),
        s.free[h.order as int][i] == h.buddy().offset,
    ensures
        s.take_free(h.order, i).sound_with(Some(h.parent())),
{
    let b = h.buddy();
    let before = s.blocks_with(Some(h));
    assert(before.contains(h));
    tiling::lemma_family(h);
    arith::lemma_pow2_double(h.order);
    lemma_take_free(s, b, i);
    assert(s.blocks().contains(b));
    tiling::lemma_join_tiles(before, h, s.min_order, s.max_order);
    let after = s.take_free(h.order, i);
    assert(!s.blocks().contains(h.parent()));
    assert(after.blocks_with(Some(h.parent())) =~= tiling::join(before, h));
}

/// A held block whose buddy is not free can be made free.
pub proof fn lemma_held_to_free(s: BuddyState, h: Block, offset: usize)
    requires
        s.sound_with(Some(h)),
        h.offset == offset,
        h.order == s.max_order || !s.is_free(h.buddy()),
    ensures
        s.push_free(h.order, offset).wf(),
{
    let before = s.blocks_with(Some(h));
    assert(before.contains(h));
    assert forall|c: Block| #[trigger] s.is_free(c) implies c.aligned() by {
        assert(before.contains(c));
    }
    assert(!s.blocks().contains(h));
    lemma_push_free(s, h, offset);
    assert(s.push_free(h.order, offset).blocks() =~= before);
}

/// A fresh arena satisfies the invariant.
pub proof fn lemma_fresh_wf(min_order: nat, max_order: nat)
    requires
        min_order <= max_order < usize::BITS,
    ensures
        BuddyState::fresh(min_order, max_order).wf(),
        BuddyState::fresh(min_order, max_order).live_bytes() == 0,
{
    let s = BuddyState::fresh(min_order, max_order);
    let whole = Block { offset: 0, order: max_order };
    lemma_pow2_pos(max_order);
    assert(s.free[max_order as int][0] == 0);
    assert(lists::holds(s.free[max_order as int], 0));
    assert(s.is_free(whole));
    assert forall|b: Block| #[trigger] s.is_free(b) implies b == whole by {
        let i = choose|i: int|
            0 <= i < s.free[b.order as int].len() && #[trigger] s.free[b.order as int][i] == b.offset;
        assert(s.free[b.order as int].len() > 0);
    }
    assert(s.blocks() =~= set![whole]);
    assert(whole.aligned()) by {
        vstd::arithmetic::div_mod::lemma_mod_multiples_basic(0, pow2(max_order) as int);
    }
    assert forall|x: int| 0 <= x < pow2(max_order) implies #[trigger] tiling::covered(
        s.blocks(),
        x,
    ) by {
        assert(s.blocks().contains(whole));
        assert(whole.covers(x));
    }
    lemma_empty_lists_bytes(s.free, max_order);
    assert(s.free[max_order as int].len() == 1);
    assert(s.free_bytes() == pow2(max_order) * 1);
    assert(s.shaped());
    assert(tiling::tiles(s.blocks(), min_order, max_order));
}

proof fn lemma_empty_lists_bytes(free: Seq<Seq<usize>>, n: nat)
    requires
        forall|o: int| 0 <= o < n ==> (#[trigger] free[o]).len() == 0,
    ensures
        listed_bytes(free, n) == 0,
    decreases n,
{
    if n > 0 {
        lemma_empty_lists_bytes(free, (n - 1) as nat);
        assert(free[n - 1].len() == 0);
    }
}

/// The blocks that stand in the lists below `o`, or among the first `i` items of list `o`.
pub open spec fn listed_before(free: Seq<Seq<usize>>, o: nat, i: nat) -> Set<Block> {
    Set::new(
        |b: Block|
            {
                ||| b.order < o && lists::holds(free[b.order as int], b.offset)
                ||| b.order == o && lists::holds(free[o as int].take(i as int), b.offset)
            },
    )
}

/// One more item of a list is one more block.
pub proof fn lemma_listed_next(free: Seq<Seq<usize>>, o: nat, i: nat)
    requires
        o < free.len(),
        i < free[o as int].len(),
    ensures
        listed_before(free, o, i + 1) == listed_before(free, o, i).insert(
            Block { offset: free[o as int][i as int] as int, order: o },
        ),
        free[o as int].no_duplicates() ==> !listed_before(free, o, i).contains(
            Block { offset: free[o as int][i as int] as int, order: o },
        ),
{
    let list = free[o as int];
    let b = Block { offset: list[i as int] as int, order: o };
    let k = i as int;
    assert forall|y: int|
        lists::holds(list.take(k + 1), y) <==> #[trigger] lists::holds(list.take(k), y) || y
            == b.offset by {
        if lists::holds(list.take(k), y) {
            let j = choose|j: int| 0 <= j < i && #[trigger] list.take(k)[j] == y;
            assert(list.take(k + 1)[j] == y);
        }
        if y == b.offset {
            assert(list.take(k + 1)[k] == y);
        }
        if lists::holds(list.take(k + 1), y) {
            let j = choose|j: int| 0 <= j < k + 1 && #[trigger] list.take(k + 1)[j] == y;
            if j < i {
                assert(list.take(k)[j] == y);
            }
        }
    }
    assert forall|c: Block| #[trigger] listed_before(free, o, i + 1).contains(c) <==> listed_before(
        free,
        o,
        i,
    ).insert(b).contains(c) by {
        assert(lists::holds(list.take(k + 1), c.offset) <==> lists::holds(list.take(k), c.offset)
            || c.offset == b.offset);
    }
    assert(listed_before(free, o, i + 1) =~= listed_before(free, o, i).insert(b));
}

/// The end of one list is the start of the next.
pub proof fn lemma_listed_wraps(free: Seq<Seq<usize>>, o: nat)
    requires
        o < free.len(),
    ensures
        listed_before(free, o + 1, 0) == listed_before(free, o, free[o as int].len()),
{
    assert(free[o as int].take(free[o as int].len() as int) =~= free[o as int]);
    assert(listed_before(free, o + 1, 0) =~= listed_before(free, o, free[o as int].len()));
}

/// The lists hold no more blocks than they have items.
pub proof fn lemma_listed_bounded(free: Seq<Seq<usize>>, o: nat, i: nat)
    requires
        o < free.len(),
        i <= free[o as int].len(),
    ensures
        listed_before(free, o, i).finite(),
        listed_before(free, o, i).len() <= listed_count(free, o) + i,
    decreases o, i,
{
    if i > 0 {
        lemma_listed_bounded(free, o, (i - 1) as nat);
        lemma_listed_next(free, o, (i - 1) as nat);
    } else if o > 0 {
        let p = (o - 1) as nat;
        lemma_listed_bounded(free, p, free[p as int].len());
        lemma_listed_wraps(free, p);
    } else {
        assert(listed_before(free, o, i) =~= Set::empty());
    }
}

/// The free blocks are those that the lists hold.
pub proof fn lemma_listed_all(s: BuddyState)
    requires
        s.free.len() > 0,
    ensures
        listed_before(s.free, (s.free.len() - 1) as nat, s.free.last().len()) == Set::new(
            |b: Block| s.is_free(b),
        ),
{
    let last = s.free.last();
    assert(last.take(last.len() as int) =~= last);
    assert(listed_before(s.free, (s.free.len() - 1) as nat, last.len()) =~= Set::new(
        |b: Block| s.is_free(b),
    ));
}

/// A list has no more items than bytes.
pub proof fn lemma_listed_count_bounded(free: Seq<Seq<usize>>, n: nat)
    ensures
        listed_count(free, n) <= listed_bytes(free, n),
    decreases n,
{
    if n > 0 {
        lemma_listed_count_bounded(free, (n - 1) as nat);
        let p = pow2((n - 1) as nat);
        let k = free[n - 1].len();
        lemma_pow2_pos((n - 1) as nat);
        assert(k <= p * k) by (nonlinear_arith)
            requires
                p >= 1,
        ;
    }
}

/// There are no more free regions than free blocks, and no more of those than bytes.
pub proof fn lemma_free_regions_bounded(s: BuddyState)
    requires
        s.wf(),
    ensures
        Set::new(|b: Block| s.starts_region(b)).finite(),
        s.free_regions() <= s.free_count() <= s.free_bytes() <= s.arena_bytes() <= usize::MAX,
{
    let top = (s.free.len() - 1) as nat;
    lemma_listed_bounded(s.free, top, s.free.last().len());
    lemma_listed_all(s);
    lemma_listed_count_bounded(s.free, s.free.len());
    vstd::bits::lemma_usize_pow2_no_overflow(s.max_order);
    let all = Set::new(|b: Block| s.is_free(b));
    let starts = Set::new(|b: Block| s.starts_region(b));
    assert(starts.subset_of(all));
    vstd::set_lib::lemma_len_subset(starts, all);
}

} // verus!
