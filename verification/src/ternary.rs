//! An allocator for packed trits: word-aligned regions, first fit, joined when freed.

use crate::lists;
use crate::regions;
use crate::regions::TRITS_PER_WORD;
use crate::totals;
use std::collections::HashMap;
use vstd::prelude::*;

verus! {

/// The mathematical state of a ternary allocator.
#[verifier::ext_equal]
pub struct TernaryState {
    /// Capacity in trits, a whole number of words.
    pub total: nat,
    /// The free regions `(start, length)`, in the order in which they are searched.
    pub free: Seq<(usize, usize)>,
    /// The region of each live handle.
    pub live: Map<u64, (usize, usize)>,
    /// The handle that the next allocation gets.
    pub next_handle: u64,
}

/// `trits` rounded up to a whole number of words.
pub open spec fn word_ceil(trits: nat) -> nat {
    ((trits + TRITS_PER_WORD - 1) as nat / TRITS_PER_WORD as nat) * TRITS_PER_WORD as nat
}

/// The trits that a request for `trits` trits gets: whole words, and at least one.
pub open spec fn request_trits(trits: nat) -> nat {
    word_ceil(if trits == 0 { 1 } else { trits })
}

/// The length of a region.
pub open spec fn region_length() -> spec_fn((usize, usize)) -> nat {
    |r: (usize, usize)| r.1 as nat
}

impl TernaryState {
    /// The state of an allocator with nothing allocated.
    pub open spec fn fresh(total: usize) -> TernaryState {
        TernaryState {
            total: total as nat,
            free: seq![(0usize, total)],
            live: Map::empty(),
            next_handle: 0,
        }
    }

    /// Whether trit `x` belongs to a live region.
    pub open spec fn in_use(self, x: int) -> bool {
        exists|h: u64| #[trigger] self.live.contains_key(h) && regions::region_has(self.live[h], x)
    }

    /// The trits of the live regions.
    pub open spec fn used(self) -> nat {
        totals::total(self.live, region_length())
    }

    /// The free regions are well placed, and no two of them overlap or touch.
    pub open spec fn free_sound(self) -> bool {
        if self.total == 0 {
            self.free == seq![(0usize, 0usize)]
        } else {
            regions::valid(self.free, self.total as int) && regions::all_apart(self.free)
        }
    }

    /// The live regions are well placed, and overlap neither each other nor a free region.
    pub open spec fn live_sound(self) -> bool {
        &&& self.live.dom().finite()
        &&& forall|h: u64| #[trigger]
            self.live.contains_key(h) ==> h < self.next_handle && regions::well_placed(
                self.live[h],
                self.total as int,
            )
        &&& forall|g: u64, h: u64|
            #![trigger self.live.contains_key(g), self.live.contains_key(h)]
            self.live.contains_key(g) && self.live.contains_key(h) && g != h ==> regions::disjoint(
                self.live[g],
                self.live[h],
            )
        &&& forall|h: u64, i: int|
            #![trigger self.live.contains_key(h), self.free[i]]
            self.live.contains_key(h) && 0 <= i < self.free.len() ==> regions::disjoint(
                self.live[h],
                self.free[i],
            )
    }

    /// The invariant: free and live regions partition the trits into whole words, and free
    /// regions that touch have been joined.
    pub open spec fn wf(self) -> bool {
        &&& self.total <= usize::MAX
        &&& self.total % TRITS_PER_WORD as nat == 0
        &&& self.free_sound()
        &&& self.live_sound()
        &&& forall|x: int|
            0 <= x < self.total ==> #[trigger] regions::covers(self.free, x) || self.in_use(x)
        &&& regions::lengths(self.free) + self.used() == self.total
    }

    /// The index of the free region that a request is served from.
    pub open spec fn serving_index(self, trits: nat) -> nat {
        regions::first_fit(self.free, request_trits(trits), 0)
    }

    /// Whether a free region is long enough for the request.
    pub open spec fn can_serve(self, trits: nat) -> bool {
        self.serving_index(trits) < self.free.len()
    }

    /// The free regions after `needed` trits were taken from the start of the `i`-th.
    pub open spec fn carved(self, i: int, needed: nat) -> Seq<(usize, usize)> {
        let (start, len) = self.free[i];
        if len == needed {
            lists::swap_removed(self.free, i)
        } else {
            self.free.update(i, ((start + needed) as usize, (len - needed) as usize))
        }
    }

    /// The state after a request for `trits` trits was served.
    pub open spec fn allocated(self, trits: nat) -> TernaryState {
        let i = self.serving_index(trits) as int;
        let needed = request_trits(trits);
        TernaryState {
            free: self.carved(i, needed),
            live: self.live.insert(self.next_handle, (self.free[i].0, needed as usize)),
            next_handle: (self.next_handle + 1) as u64,
            ..self
        }
    }

    /// Whether `after` is the state after the live handle `handle` was freed: its trits are
    /// free, and the free regions are in ascending order, joined where they touch.
    pub open spec fn freed_to(self, handle: u64, after: TernaryState) -> bool {
        &&& after.total == self.total
        &&& after.next_handle == self.next_handle
        &&& after.live == self.live.remove(handle)
        &&& regions::canonical(after.free)
        &&& forall|x: int| #[trigger]
            regions::covers(after.free, x) <==> regions::covers(self.free, x)
                || regions::region_has(self.live[handle], x)
    }
}

/// An allocator that hands out trit-aligned chunks.
///
/// Ternary values (trits) are packed into balanced-ternary words. Every allocation starts at
/// a word boundary (a multiple of `TRITS_PER_WORD`) and is sized in whole words.
#[derive(Debug)]
pub struct TernaryAllocator {
    /// Total capacity in trits.
    total_trits: usize,
    /// Free regions as `(start, length)`.
    free_regions: Vec<(usize, usize)>,
    /// The region of each live handle.
    allocated: HashMap<u64, (usize, usize)>,
    next_handle: u64,
}

impl View for TernaryAllocator {
    type V = TernaryState;

    closed spec fn view(&self) -> TernaryState {
        TernaryState {
            total: self.total_trits as nat,
            free: self.free_regions@,
            live: self.allocated@,
            next_handle: self.next_handle,
        }
    }
}

impl TernaryAllocator {
    /// The invariant of the allocator.
    pub open spec fn wf(&self) -> bool {
        self@.wf()
    }

    /// Round up to a trit-word boundary.
    fn align_up(trits: usize) -> (aligned: usize)
        requires
            word_ceil(trits as nat) <= usize::MAX,
        ensures
            aligned == word_ceil(trits as nat),
    {
        let part = trits % TRITS_PER_WORD;
        if part == 0 {
            trits
        } else {
            trits + (TRITS_PER_WORD - part)
        }
    }

    /// Create a ternary allocator with the given total trit capacity.
    ///
    /// Capacity is rounded up to a whole number of words.
    pub fn new(total_trits: usize) -> (allocator: Self)
        requires
            word_ceil(total_trits as nat) <= usize::MAX,
        ensures
            allocator.wf(),
            allocator@ == TernaryState::fresh(word_ceil(total_trits as nat) as usize),
            allocator@.total % 16 == 0,
            total_trits <= allocator@.total < total_trits + 16,
            allocator@.free.len() == 1,
            allocator@.free[0].0 == 0,
            allocator@.free[0].1 == allocator@.total,
            allocator@.live == Map::<u64, (usize, usize)>::empty(),
            allocator@.next_handle == 0,
    {
        let total_trits = Self::align_up(total_trits);
        let mut free_regions: Vec<(usize, usize)> = Vec::new();
        free_regions.push((0, total_trits));
        let allocator = TernaryAllocator {
            total_trits,
            free_regions,
            allocated: HashMap::new(),
            next_handle: 0,
        };
        proof {
            assert(allocator@ =~= TernaryState::fresh(total_trits));
            lemma_fresh_wf(total_trits);
        }
        allocator
    }

    /// Allocate `trit_count` trits. Returns a handle.
    ///
    /// The size is rounded up to a word boundary.
    pub fn allocate(&mut self, trit_count: usize) -> (handle: Option<u64>)
        requires
            old(self).wf(),
            request_trits(trit_count as nat) <= usize::MAX,
            old(self)@.can_serve(trit_count as nat) ==> old(self)@.next_handle < u64::MAX,
        ensures
            final(self).wf(),
            match handle {
                Some(h) => {
                    &&& old(self)@.can_serve(trit_count as nat)
                    &&& h == old(self)@.next_handle
                    &&& final(self)@ == old(self)@.allocated(trit_count as nat)
                },
                None => {
                    &&& !old(self)@.can_serve(trit_count as nat)
                    &&& final(self)@ == old(self)@
                },
            },
    {
        let ghost before = self@;
        let needed = Self::align_up(
            if trit_count == 0 {
                1
            } else {
                trit_count
            },
        );
        let mut i: usize = 0;
        while i < self.free_regions.len() && self.free_regions[i].1 < needed
            invariant
                self@ == before,
                i <= before.free.len(),
                needed == request_trits(trit_count as nat),
                regions::first_fit(before.free, needed as nat, i as nat) == before.serving_index(
                    trit_count as nat,
                ),
            decreases before.free.len() - i,
        {
            i = i + 1;
        }
        if i >= self.free_regions.len() {
            return None;
        }
        let (start, len) = self.free_regions[i];
        proof {
            assert(before.serving_index(trit_count as nat) == i);
            lemma_carved(before, i as int, needed as nat);
            assert(regions::well_placed(before.free[i as int], before.total as int));
        }
        let handle = self.next_handle;
        self.next_handle = handle + 1;
        self.allocated.insert(handle, (start, needed));
        if len == needed {
            self.free_regions.swap_remove(i);
        } else {
            self.free_regions.set(i, (start + needed, len - needed));
        }
        proof {
            assert(self@ =~= before.allocated(trit_count as nat));
            lemma_allocated_wf(before, trit_count as nat);
        }
        Some(handle)
    }

    /// Merge adjacent free regions.
    fn coalesce(&mut self)
        requires
            regions::valid(old(self)@.free, old(self)@.total as int),
        ensures
            final(self)@.total == old(self)@.total,
            final(self)@.live == old(self)@.live,
            final(self)@.next_handle == old(self)@.next_handle,
            regions::valid(final(self)@.free, final(self)@.total as int),
            regions::canonical(final(self)@.free),
            regions::same_space(final(self)@.free, old(self)@.free),
    {
        let ghost limit = self@.total as int;
        regions::sort_by_start(&mut self.free_regions, Ghost(limit));
        let merged = regions::join_adjacent(&self.free_regions, Ghost(limit));
        self.free_regions = merged;
    }

    /// Deallocate a handle, joining its region with adjacent free regions.
    ///
    /// Returns `true` if the handle was live.
    pub fn deallocate(&mut self, handle: u64) -> (freed: bool)
        requires
            old(self).wf(),
        ensures
            final(self).wf(),
            freed == old(self)@.live.contains_key(handle),
            if freed {
                old(self)@.freed_to(handle, final(self)@)
            } else {
                final(self)@ == old(self)@
            },
    {
        let ghost before = self@;
        match self.allocated.remove(&handle) {
            Some(region) => {
                proof {
                    lemma_with_region_valid(before, handle);
                    regions::lemma_push_region(before.free, region);
                }
                self.free_regions.push(region);
                self.coalesce();
                proof {
                    lemma_freed_wf(before, handle, self@);
                }
                true
            },
            None => {
                assert(self@ =~= before);
                false
            },
        }
    }

    /// The region `(start, length)` of a live handle.
    pub fn get(&self, handle: u64) -> (region: Option<(usize, usize)>)
        ensures
            region == if self@.live.contains_key(handle) {
                Some(self@.live[handle])
            } else {
                None::<(usize, usize)>
            },
    {
        match self.allocated.get(&handle) {
            Some(region) => Some(*region),
            None => None,
        }
    }

    /// Total trit capacity.
    pub fn total_trits(&self) -> (trits: usize)
        ensures
            trits == self@.total,
    {
        self.total_trits
    }

    /// Used trits.
    pub fn used_trits(&self) -> (trits: usize)
        requires
            self.wf(),
        ensures
            trits == self@.used(),
    {
        let ghost live = self.allocated@;
        let handles = self.allocated.keys();
        let ghost keys = vstd::std_specs::iter::IteratorSpec::remaining(&handles).unref();
        let mut used: usize = 0;
        proof {
            totals::lemma_total_walk_ends(live, region_length(), keys);
        }
        for handle in walk: handles
            invariant
                self.wf(),
                live == self@.live,
                live == self.allocated@,
                keys.to_set() == live.dom(),
                keys.no_duplicates(),
                walk.seq().unref() == keys,
                used == totals::total(
                    live.restrict(keys.take(walk.index()).to_set()),
                    region_length(),
                ),
        {
            let ghost i = walk.index();
            proof {
                totals::lemma_total_walk(live, region_length(), keys, i);
                assert(*handle == keys[i]);
            }
            if let Some(region) = self.allocated.get(handle) {
                used = used + region.1;
            }
        }
        used
    }

    /// Free trits.
    pub fn free_trits(&self) -> (trits: usize)
        requires
            self.wf(),
        ensures
            trits == regions::lengths(self@.free),
            trits == self@.total - self@.used(),
    {
        self.total_trits - self.used_trits()
    }

    /// Number of live allocations.
    pub fn live_allocations(&self) -> (count: usize)
        ensures
            count == self@.live.len(),
    {
        self.allocated.len()
    }
}

/// A fresh allocator satisfies the invariant.
pub proof fn lemma_fresh_wf(total: usize)
    requires
        total as int % TRITS_PER_WORD as int == 0,
    ensures
        TernaryState::fresh(total).wf(),
{
    let s = TernaryState::fresh(total);
    assert(s.free.drop_last() =~= Seq::empty());
    assert(regions::lengths(s.free.drop_last()) == 0);
    assert forall|x: int| 0 <= x < s.total implies #[trigger] regions::covers(s.free, x) by {
        assert(regions::region_has(s.free[0], x));
    }
}

/// What taking trits from the start of a free region does to the free regions.
pub proof fn lemma_carved(s: TernaryState, i: int, needed: nat)
    requires
        s.wf(),
        0 <= i < s.free.len(),
        0 < needed <= s.free[i].1,
        needed % TRITS_PER_WORD as nat == 0,
    ensures
        s.total > 0,
        regions::valid(s.carved(i, needed), s.total as int),
        regions::all_apart(s.carved(i, needed)),
        regions::lengths(s.carved(i, needed)) + needed == regions::lengths(s.free),
        forall|x: int| #[trigger]
            regions::covers(s.carved(i, needed), x) <==> regions::covers(s.free, x)
                && !regions::region_has((s.free[i].0, needed as usize), x),
        forall|k: int|
            0 <= k < s.carved(i, needed).len() ==> exists|j: int|
                0 <= j < s.free.len() && s.free[j].0 <= (#[trigger] s.carved(i, needed)[k]).0
                    && regions::region_end(s.carved(i, needed)[k]) == #[trigger] regions::region_end(
                    s.free[j],
                ) && (j == i ==> s.free[i].0 + needed <= s.carved(i, needed)[k].0),
{
    let after = s.carved(i, needed);
    let n = s.free.len();
    let (start, len) = s.free[i];
    let got = (start, needed as usize);
    assert(s.total > 0);
    assert(regions::well_placed(s.free[i], s.total as int));
    if len == needed {
        regions::lemma_lengths_update(s.free, i, s.free.last());
        assert(after == s.free.update(i, s.free.last()).drop_last());
        assert forall|k: int| 0 <= k < after.len() implies #[trigger] after[k] == s.free[
            if k == i { n - 1 } else { k }
        ] by {}
    } else {
        regions::lemma_lengths_update(
            s.free,
            i,
            ((start + needed) as usize, (len - needed) as usize),
        );
        assert forall|k: int| 0 <= k < after.len() && k != i implies #[trigger] after[k] == s.free[k] by {}
        assert(after[i] == ((start + needed) as usize, (len - needed) as usize));
    }
    assert forall|x: int| #[trigger] regions::covers(after, x) <==> regions::covers(s.free, x)
        && !regions::region_has(got, x) by {
        if regions::covers(after, x) {
            let k = choose|k: int| 0 <= k < after.len() && regions::region_has(#[trigger] after[k], x);
            let j = if len == needed && k == i { n - 1 } else { k };
            assert(regions::region_has(s.free[j], x));
            if j != i {
                if j < i {
                    assert(regions::disjoint(s.free[j], s.free[i]));
                } else {
                    assert(regions::disjoint(s.free[i], s.free[j]));
                }
            }
        }
        if regions::covers(s.free, x) && !regions::region_has(got, x) {
            let j = choose|j: int| 0 <= j < n && regions::region_has(#[trigger] s.free[j], x);
            let k = if len == needed && j == n - 1 { i } else { j };
            assert(regions::region_has(after[k], x));
        }
    }
    assert forall|k: int, m: int| 0 <= k < m < after.len() implies regions::apart(
        #[trigger] after[k],
        #[trigger] after[m],
    ) by {
        let p = if len == needed && k == i { n - 1 } else { k };
        let q = if len == needed && m == i { n - 1 } else { m };
        if p < q {
            assert(regions::apart(s.free[p], s.free[q]));
        } else {
            assert(regions::apart(s.free[q], s.free[p]));
        }
    }
    assert forall|k: int| 0 <= k < after.len() implies exists|j: int|
        0 <= j < s.free.len() && s.free[j].0 <= (#[trigger] after[k]).0 && regions::region_end(
            after[k],
        ) == #[trigger] regions::region_end(s.free[j]) && (j == i ==> s.free[i].0 + needed
            <= after[k].0) by {
        let j = if len == needed && k == i { n - 1 } else { k };
        assert(regions::region_end(after[k]) == regions::region_end(s.free[j]));
    }
}

/// Serving a request keeps the invariant, and the handle it gives is new.
pub proof fn lemma_allocated_wf(s: TernaryState, trits: nat)
    requires
        s.wf(),
        s.can_serve(trits),
        s.next_handle < u64::MAX,
    ensures
        s.allocated(trits).wf(),
        !s.live.contains_key(s.next_handle),
        s.allocated(trits).used() == s.used() + request_trits(trits),
{
    let i = s.serving_index(trits) as int;
    let needed = request_trits(trits);
    let after = s.allocated(trits);
    let got = (s.free[i].0, needed as usize);
    regions::lemma_first_fit_least(s.free, needed, 0);
    lemma_carved(s, i, needed);
    assert(regions::well_placed(s.free[i], s.total as int));
    assert(regions::well_placed(got, s.total as int));
    totals::lemma_total_insert(s.live, region_length(), s.next_handle, got);
    assert forall|h: u64, k: int|
        #![trigger after.live.contains_key(h), after.free[k]]
        after.live.contains_key(h) && 0 <= k < after.free.len() implies regions::disjoint(
        after.live[h],
        after.free[k],
    ) by {
        let j = choose|j: int|
            0 <= j < s.free.len() && s.free[j].0 <= after.free[k].0 && regions::region_end(
                after.free[k],
            ) == #[trigger] regions::region_end(s.free[j]) && (j == i ==> s.free[i].0 + needed
                <= after.free[k].0);
        if h == s.next_handle {
            if j < i {
                assert(regions::disjoint(s.free[j], s.free[i]));
            } else if j > i {
                assert(regions::disjoint(s.free[i], s.free[j]));
            }
        } else {
            assert(s.live.contains_key(h));
            assert(regions::disjoint(s.live[h], s.free[j]));
        }
    }
    assert forall|g: u64, h: u64|
        #![trigger after.live.contains_key(g), after.live.contains_key(h)]
        after.live.contains_key(g) && after.live.contains_key(h) && g != h implies regions::disjoint(
        after.live[g],
        after.live[h],
    ) by {
        if g != s.next_handle {
            assert(regions::disjoint(s.live[g], s.free[i]));
        }
        if h != s.next_handle {
            assert(regions::disjoint(s.live[h], s.free[i]));
        }
    }
    assert forall|x: int| 0 <= x < after.total implies #[trigger] regions::covers(after.free, x)
        || after.in_use(x) by {
        assert(regions::covers(s.free, x) || s.in_use(x));
        if regions::region_has(got, x) {
            assert(after.live.contains_key(s.next_handle));
        } else if s.in_use(x) {
            let h = choose|h: u64| #[trigger]
                s.live.contains_key(h) && regions::region_has(s.live[h], x);
            assert(after.live.contains_key(h));
        }
    }
}

/// The free regions with the region of a live handle behind them are valid.
proof fn lemma_with_region_valid(s: TernaryState, handle: u64)
    requires
        s.wf(),
        s.live.contains_key(handle),
    ensures
        regions::valid(s.free.push(s.live[handle]), s.total as int),
{
    let all = s.free.push(s.live[handle]);
    assert(regions::well_placed(s.live[handle], s.total as int));
    assert forall|i: int, j: int| 0 <= i < j < all.len() implies regions::disjoint(
        #[trigger] all[i],
        #[trigger] all[j],
    ) by {
        if j == s.free.len() {
            assert(regions::disjoint(s.live[handle], s.free[i]));
        } else {
            assert(regions::disjoint(s.free[i], s.free[j]));
        }
    }
}

/// Freeing a live handle keeps the invariant.
pub proof fn lemma_freed_wf(s: TernaryState, handle: u64, after: TernaryState)
    requires
        s.wf(),
        s.live.contains_key(handle),
        s.freed_to(handle, after),
    ensures
        after.wf(),
        after.used() + s.live[handle].1 == s.used(),
{
    let r = s.live[handle];
    lemma_with_region_valid(s, handle);
    regions::lemma_push_region(s.free, r);
    regions::lemma_canonical_valid(after.free, s.free.push(r), s.total as int);
    totals::lemma_total_remove(s.live, region_length(), handle);
    assert(regions::well_placed(r, s.total as int));
    assert forall|h: u64, k: int|
        #![trigger after.live.contains_key(h), after.free[k]]
        after.live.contains_key(h) && 0 <= k < after.free.len() implies regions::disjoint(
        after.live[h],
        after.free[k],
    ) by {
        let l = after.live[h];
        let f = after.free[k];
        assert(s.live.contains_key(h));
        assert(regions::well_placed(l, s.total as int));
        assert(regions::well_placed(f, s.total as int));
        if !regions::disjoint(l, f) {
            let x = if l.0 >= f.0 { l.0 as int } else { f.0 as int };
            assert(regions::region_has(f, x));
            assert(regions::covers(after.free, x));
            if regions::region_has(r, x) {
                assert(regions::disjoint(s.live[h], s.live[handle]));
            } else {
                let j = choose|j: int|
                    0 <= j < s.free.len() && regions::region_has(#[trigger] s.free[j], x);
                assert(regions::disjoint(s.live[h], s.free[j]));
            }
            assert(false);
        }
    }
    assert forall|x: int| 0 <= x < after.total implies #[trigger] regions::covers(after.free, x)
        || after.in_use(x) by {
        assert(regions::covers(s.free, x) || s.in_use(x));
        if s.in_use(x) {
            let h = choose|h: u64| #[trigger]
                s.live.contains_key(h) && regions::region_has(s.live[h], x);
            if h != handle {
                assert(after.live.contains_key(h));
            }
        }
    }
}

} // verus!
