//! The laws of the ternary allocator.

use crate::regions;
use crate::regions::TRITS_PER_WORD;
use crate::ternary;
use crate::ternary::TernaryState;
use vstd::prelude::*;

verus! {

/// What freeing a handle gives is determined: there is one state that it can lead to.
pub proof fn law_free_determined(s: TernaryState, handle: u64, a: TernaryState, b: TernaryState)
    requires
        s.freed_to(handle, a),
        s.freed_to(handle, b),
    ensures
        a == b,
{
    assert forall|x: int| #[trigger] regions::covers(a.free, x) <==> regions::covers(b.free, x) by {
        assert(regions::covers(b.free, x) == regions::covers(b.free, x));
    }
    regions::law_canonical_form_unique(a.free, b.free);
}

/// Freeing the handle that a request was just given restores the live regions and the free
/// trits. Where the free regions were in ascending order they are restored exactly.
pub proof fn law_free_undoes_allocate(s: TernaryState, trits: nat, after: TernaryState)
    requires
        s.wf(),
        s.can_serve(trits),
        s.next_handle < u64::MAX,
        s.allocated(trits).freed_to(s.next_handle, after),
    ensures
        s.allocated(trits).live.contains_key(s.next_handle),
        after.total == s.total,
        after.live == s.live,
        forall|x: int| #[trigger] regions::covers(after.free, x) <==> regions::covers(s.free, x),
        regions::canonical(s.free) ==> after.free == s.free,
{
    let i = s.serving_index(trits) as int;
    let needed = ternary::request_trits(trits);
    let mid = s.allocated(trits);
    regions::lemma_first_fit_least(s.free, needed, 0);
    ternary::lemma_allocated_wf(s, trits);
    ternary::lemma_carved(s, i, needed);
    assert(after.live =~= s.live);
    let got = mid.live[s.next_handle];
    assert forall|x: int| #[trigger] regions::covers(after.free, x) <==> regions::covers(s.free, x) by {
        assert(regions::covers(mid.free, x) <==> regions::covers(s.free, x) && !regions::region_has(
            got,
            x,
        ));
        if regions::region_has(got, x) {
            assert(regions::region_has(s.free[i], x));
        }
    }
    if regions::canonical(s.free) {
        regions::law_canonical_form_unique(after.free, s.free);
    }
}

/// Once nothing is allocated any more, the free trits are one region again.
pub proof fn law_all_freed_is_one_region(s: TernaryState)
    requires
        s.wf(),
        s.live.dom().is_empty(),
    ensures
        s.free == seq![(0usize, s.total as usize)],
{
    if s.total > 0 {
        assert forall|x: int| 0 <= x < s.total implies #[trigger] regions::covers(s.free, x) by {
            assert(regions::covers(s.free, x) || s.in_use(x));
        }
        assert(regions::covers(s.free, 0));
        let i = choose|i: int| 0 <= i < s.free.len() && regions::region_has(#[trigger] s.free[i], 0);
        let first = s.free[i];
        assert(regions::well_placed(first, s.total as int));
        let end = regions::region_end(first);
        if end < s.total {
            assert(regions::covers(s.free, end));
            let j = choose|j: int|
                0 <= j < s.free.len() && regions::region_has(#[trigger] s.free[j], end);
            if i < j {
                assert(regions::apart(s.free[i], s.free[j]));
            } else if j < i {
                assert(regions::apart(s.free[j], s.free[i]));
            }
            assert(false);
        }
        if s.free.len() > 1 {
            let j = if i == 0 { 1int } else { 0int };
            assert(regions::well_placed(s.free[j], s.total as int));
            if i < j {
                assert(regions::apart(s.free[i], s.free[j]));
            } else {
                assert(regions::apart(s.free[j], s.free[i]));
            }
            assert(false);
        }
        assert(s.free =~= seq![(0usize, s.total as usize)]);
    }
}

/// Live regions start at a word, are made of whole words, are not empty, and lie inside the
/// capacity.
pub proof fn law_live_regions_word_aligned(s: TernaryState, handle: u64)
    requires
        s.wf(),
        s.live.contains_key(handle),
    ensures
        s.live[handle].0 % TRITS_PER_WORD == 0,
        s.live[handle].1 % TRITS_PER_WORD == 0,
        s.live[handle].1 > 0,
        s.live[handle].0 + s.live[handle].1 <= s.total,
{
}

/// No two live regions share a trit.
pub proof fn law_live_regions_disjoint(s: TernaryState, g: u64, h: u64)
    requires
        s.wf(),
        s.live.contains_key(g),
        s.live.contains_key(h),
        g != h,
    ensures
        regions::disjoint(s.live[g], s.live[h]),
{
}

/// No free trit is in use, and every trit of the capacity is one or the other.
pub proof fn law_free_or_in_use(s: TernaryState, x: int)
    requires
        s.wf(),
        0 <= x < s.total,
    ensures
        regions::covers(s.free, x) <==> !s.in_use(x),
{
    assert(regions::covers(s.free, x) || s.in_use(x));
    if regions::covers(s.free, x) && s.in_use(x) {
        let i = choose|i: int| 0 <= i < s.free.len() && regions::region_has(#[trigger] s.free[i], x);
        let h = choose|h: u64| #[trigger]
            s.live.contains_key(h) && regions::region_has(s.live[h], x);
        assert(regions::disjoint(s.live[h], s.free[i]));
    }
}

/// No two free regions touch: what can be joined has been joined.
pub proof fn law_free_regions_joined(s: TernaryState, i: int, j: int)
    requires
        s.wf(),
        0 <= i < j < s.free.len(),
    ensures
        regions::apart(s.free[i], s.free[j]),
{
}

/// Every trit is accounted for, as free or as used.
pub proof fn law_trits_conserved(s: TernaryState)
    requires
        s.wf(),
    ensures
        regions::lengths(s.free) + s.used() == s.total,
{
}

/// A request gets the least number of whole words that hold it, and at least one.
pub proof fn law_rounding_bounded(trits: nat)
    ensures
        ternary::request_trits(trits) % TRITS_PER_WORD as nat == 0,
        ternary::request_trits(trits) >= TRITS_PER_WORD,
        trits <= ternary::request_trits(trits),
        trits > 0 ==> ternary::request_trits(trits) < trits + TRITS_PER_WORD,
{
}

/// A request is served exactly when some free region is long enough for it.
pub proof fn law_served_iff_region_free(s: TernaryState, trits: nat)
    ensures
        s.can_serve(trits) <==> exists|i: int|
            0 <= i < s.free.len() && (#[trigger] s.free[i]).1 >= ternary::request_trits(trits),
{
    regions::lemma_first_fit_least(s.free, ternary::request_trits(trits), 0);
}

/// A fresh allocator serves any request that, in whole words, is no larger than its capacity.
pub proof fn law_fresh_serves_up_to_capacity(total: usize, trits: nat)
    ensures
        TernaryState::fresh(total).can_serve(trits) <==> ternary::request_trits(trits) <= total,
{
    let s = TernaryState::fresh(total);
    regions::lemma_first_fit_least(s.free, ternary::request_trits(trits), 0);
    assert(s.free[0].1 == total);
}

/// No handle is given twice: a request is given a handle above every live handle, the next
/// request a higher one, and freeing does not lower the handle that comes next.
pub proof fn law_handles_not_reused(s: TernaryState, trits: nat)
    requires
        s.wf(),
        s.can_serve(trits),
        s.next_handle < u64::MAX,
    ensures
        forall|h: u64| #[trigger] s.live.contains_key(h) ==> h < s.next_handle,
        s.allocated(trits).live.contains_key(s.next_handle),
        s.allocated(trits).next_handle > s.next_handle,
        forall|h: u64, after: TernaryState| #[trigger]
            s.freed_to(h, after) ==> after.next_handle == s.next_handle,
{
}

/// Serving a request leaves the other live regions as they are.
pub proof fn law_allocate_keeps_others(s: TernaryState, trits: nat, other: u64)
    requires
        s.wf(),
        s.can_serve(trits),
        s.next_handle < u64::MAX,
        s.live.contains_key(other),
    ensures
        other != s.next_handle,
        s.allocated(trits).live.contains_key(other),
        s.allocated(trits).live[other] == s.live[other],
{
}

/// Freeing a handle leaves the other live regions as they are, and the handle cannot be freed
/// again.
pub proof fn law_free_keeps_others(s: TernaryState, handle: u64, after: TernaryState, other: u64)
    requires
        s.wf(),
        s.live.contains_key(handle),
        s.freed_to(handle, after),
        other != handle,
    ensures
        !after.live.contains_key(handle),
        after.live.contains_key(other) <==> s.live.contains_key(other),
        s.live.contains_key(other) ==> after.live[other] == s.live[other],
{
}

/// Whether no live region shares a trit with the `length` trits from `start` on.
pub open spec fn clear_of_live(s: TernaryState, start: int, length: nat) -> bool {
    forall|h: u64| #[trigger]
        s.live.contains_key(h) ==> regions::region_end(s.live[h]) <= start || start + length
            <= s.live[h].0
}

/// A request is served exactly when some range of the capacity has as many trits as the request
/// gets and shares none with a live region.
pub proof fn law_served_iff_room(s: TernaryState, trits: nat)
    requires
        s.wf(),
    ensures
        s.can_serve(trits) <==> exists|start: int|
            {
                &&& 0 <= start
                &&& start + ternary::request_trits(trits) <= s.total
                &&& #[trigger] clear_of_live(s, start, ternary::request_trits(trits))
            },
{
    let needed = ternary::request_trits(trits);
    law_rounding_bounded(trits);
    law_served_iff_region_free(s, trits);
    if s.can_serve(trits) {
        let i = s.serving_index(trits) as int;
        regions::lemma_first_fit_least(s.free, needed, 0);
        let f = s.free[i];
        assert(s.total > 0);
        assert(regions::well_placed(f, s.total as int));
        assert forall|h: u64| #[trigger] s.live.contains_key(h) implies regions::region_end(
            s.live[h],
        ) <= f.0 || f.0 + needed <= s.live[h].0 by {
            assert(regions::disjoint(s.live[h], s.free[i]));
        }
        assert(clear_of_live(s, f.0 as int, needed));
    }
    if exists|start: int|
        {
            &&& 0 <= start
            &&& start + needed <= s.total
            &&& #[trigger] clear_of_live(s, start, needed)
        } {
        let start = choose|start: int|
            {
                &&& 0 <= start
                &&& start + needed <= s.total
                &&& #[trigger] clear_of_live(s, start, needed)
            };
        assert forall|x: int| start <= x < start + needed implies #[trigger] regions::covers(
            s.free,
            x,
        ) by {
            law_free_or_in_use(s, x);
        }
        assert(regions::covers(s.free, start));
        let i = choose|i: int|
            0 <= i < s.free.len() && regions::region_has(#[trigger] s.free[i], start);
        let end = regions::region_end(s.free[i]);
        if end < start + needed {
            assert(regions::covers(s.free, end));
            let j = choose|j: int|
                0 <= j < s.free.len() && regions::region_has(#[trigger] s.free[j], end);
            if i < j {
                assert(regions::apart(s.free[i], s.free[j]));
            } else if j < i {
                assert(regions::apart(s.free[j], s.free[i]));
            }
            assert(false);
        }
        assert(s.free[i].1 >= needed);
    }
}

} // verus!
