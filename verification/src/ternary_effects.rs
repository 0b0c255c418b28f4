//! What the operations of a ternary allocator do, in terms of its regions alone.

use crate::regions;
use crate::ternary;
use crate::ternary::TernaryState;
use crate::totals;
use vstd::prelude::*;

verus! {

/// Trits are packed sixteen to a word, and rounding up to whole words gives the least multiple
/// of sixteen that is no less.
pub proof fn law_word_ceil_least(trits: nat)
    ensures
        regions::TRITS_PER_WORD == 16,
        ternary::word_ceil(trits) % 16 == 0,
        trits <= ternary::word_ceil(trits) < trits + 16,
{
}

/// A request gets the least positive multiple of sixteen trits that is no less than what it asks
/// for.
pub proof fn law_request_rounds_up(trits: nat)
    ensures
        ternary::request_trits(trits) % 16 == 0,
        ternary::request_trits(trits) >= 16,
        ternary::request_trits(trits) >= trits,
        ternary::request_trits(trits) == 16 || ternary::request_trits(trits) - 16 < trits,
{
}

/// A fresh allocator has one free region, which is all of its capacity.
pub proof fn law_fresh_is_one_region(total: usize)
    ensures
        TernaryState::fresh(total).total == total,
        TernaryState::fresh(total).free == seq![(0usize, total)],
        forall|h: u64| !(#[trigger] TernaryState::fresh(total).live.contains_key(h)),
        TernaryState::fresh(total).next_handle == 0,
{
}

/// A request is refused exactly when every free region that is not empty is shorter than it.
pub proof fn law_refused_iff_regions_too_short(s: TernaryState, trits: nat)
    requires
        s.wf(),
    ensures
        !s.can_serve(trits) <==> forall|i: int|
            0 <= i < s.free.len() && (#[trigger] s.free[i]).1 > 0 ==> s.free[i].1 < trits,
{
    let needed = ternary::request_trits(trits);
    law_request_rounds_up(trits);
    regions::lemma_first_fit_least(s.free, needed, 0);
    if s.can_serve(trits) {
        assert(s.free[s.serving_index(trits) as int].1 >= needed);
    } else {
        assert forall|i: int| 0 <= i < s.free.len() && (#[trigger] s.free[i]).1 > 0 implies s.free[i].1
            < trits by {
            assert(s.total > 0);
            assert(regions::well_placed(s.free[i], s.total as int));
        }
    }
}

/// A served request takes its trits from the start of the first free region that is long enough,
/// under the next handle. The rest of that region stays free in its place, or, where nothing is
/// left of it, the last region takes its place. All other regions stay as they are.
///
/// Returns the place of that region.
pub proof fn law_allocate_takes_first_fit(s: TernaryState, trits: nat) -> (i: int)
    requires
        s.wf(),
        s.can_serve(trits),
        s.next_handle < u64::MAX,
    ensures
        ({
            let t = s.allocated(trits);
            let (start, length) = t.live[s.next_handle];
            &&& length % 16 == 0
            &&& length >= 16
            &&& length >= trits
            &&& length == 16 || length - 16 < trits
            &&& 0 <= i < s.free.len()
            &&& s.free[i].1 >= length
            &&& forall|j: int| 0 <= j < i ==> (#[trigger] s.free[j]).1 < length
            &&& start == s.free[i].0
            &&& s.free[i].1 > length ==> {
                &&& t.free.len() == s.free.len()
                &&& t.free[i].0 == s.free[i].0 + length
                &&& t.free[i].1 + length == s.free[i].1
                &&& forall|j: int|
                    0 <= j < s.free.len() && j != i ==> #[trigger] t.free[j] == s.free[j]
            }
            &&& s.free[i].1 == length ==> {
                &&& t.free.len() == s.free.len() - 1
                &&& i < t.free.len() ==> t.free[i] == s.free[s.free.len() - 1]
                &&& forall|j: int|
                    0 <= j < t.free.len() && j != i ==> #[trigger] t.free[j] == s.free[j]
            }
            &&& !s.live.contains_key(s.next_handle)
            &&& t.live == s.live.insert(s.next_handle, (start, length))
            &&& t.next_handle == s.next_handle + 1
            &&& t.total == s.total
        }),
{
    let i = s.serving_index(trits) as int;
    let needed = ternary::request_trits(trits);
    law_request_rounds_up(trits);
    regions::lemma_first_fit_least(s.free, needed, 0);
    ternary::lemma_carved(s, i, needed);
    assert(regions::well_placed(s.free[i], s.total as int));
    i
}

/// Freeing a handle makes its trits free and no others. The free regions are then in ascending
/// order, none is empty, and between any two stands a trit that is not free. Everything else
/// stays as it is.
pub proof fn law_free_joins_regions(s: TernaryState, handle: u64, t: TernaryState)
    requires
        s.freed_to(handle, t),
    ensures
        t.live == s.live.remove(handle),
        t.total == s.total,
        t.next_handle == s.next_handle,
        forall|i: int| 0 <= i < t.free.len() ==> (#[trigger] t.free[i]).1 > 0,
        forall|i: int, j: int|
            0 <= i < j < t.free.len() ==> (#[trigger] t.free[i]).0 + t.free[i].1 < (
            #[trigger] t.free[j]).0,
        forall|j: int, x: int|
            0 <= j < s.free.len() && (#[trigger] s.free[j]).0 <= x < s.free[j].0 + s.free[j].1
                ==> #[trigger] regions::covers(t.free, x),
        forall|x: int|
            s.live[handle].0 <= x < s.live[handle].0 + s.live[handle].1 ==> #[trigger] regions::covers(
                t.free,
                x,
            ),
        forall|x: int|
            {
                ||| !(#[trigger] regions::covers(t.free, x))
                ||| s.live[handle].0 <= x < s.live[handle].0 + s.live[handle].1
                ||| exists|j: int|
                    0 <= j < s.free.len() && (#[trigger] s.free[j]).0 <= x < s.free[j].0
                        + s.free[j].1
            },
{
    assert forall|j: int, x: int|
        0 <= j < s.free.len() && (#[trigger] s.free[j]).0 <= x < s.free[j].0
            + s.free[j].1 implies #[trigger] regions::covers(t.free, x) by {
        assert(regions::region_has(s.free[j], x));
        assert(regions::covers(s.free, x));
    }
    assert forall|x: int| #[trigger] regions::covers(t.free, x) implies s.live[handle].0 <= x
        < s.live[handle].0 + s.live[handle].1 || exists|j: int|
        0 <= j < s.free.len() && (#[trigger] s.free[j]).0 <= x < s.free[j].0 + s.free[j].1 by {
        if regions::covers(s.free, x) {
            let j = choose|j: int|
                0 <= j < s.free.len() && regions::region_has(#[trigger] s.free[j], x);
            assert(s.free[j].0 <= x < s.free[j].0 + s.free[j].1);
        }
    }
}

/// A list of regions covers the trits from the start of each of them up to its length, and no
/// others.
pub proof fn law_regions_cover(list: Seq<(usize, usize)>, x: int)
    ensures
        regions::covers(list, x) <==> exists|i: int|
            0 <= i < list.len() && (#[trigger] list[i]).0 <= x < list[i].0 + list[i].1,
{
    if regions::covers(list, x) {
        let i = choose|i: int| 0 <= i < list.len() && regions::region_has(#[trigger] list[i], x);
        assert(list[i].0 <= x < list[i].0 + list[i].1);
    }
    if exists|i: int| 0 <= i < list.len() && (#[trigger] list[i]).0 <= x < list[i].0 + list[i].1 {
        let i = choose|i: int|
            0 <= i < list.len() && (#[trigger] list[i]).0 <= x < list[i].0 + list[i].1;
        assert(regions::region_has(list[i], x));
    }
}

/// Every trit of the capacity is in a free region or in a live region, and never in both.
pub proof fn law_trit_free_or_live(s: TernaryState, x: int)
    requires
        s.wf(),
        0 <= x < s.total,
    ensures
        (exists|i: int|
            0 <= i < s.free.len() && (#[trigger] s.free[i]).0 <= x < s.free[i].0 + s.free[i].1)
            <==> !(exists|h: u64| #[trigger]
            s.live.contains_key(h) && s.live[h].0 <= x < s.live[h].0 + s.live[h].1),
{
    crate::ternary_laws::law_free_or_in_use(s, x);
    law_regions_cover(s.free, x);
    if exists|h: u64| #[trigger]
        s.live.contains_key(h) && s.live[h].0 <= x < s.live[h].0 + s.live[h].1 {
        let h = choose|h: u64| #[trigger]
            s.live.contains_key(h) && s.live[h].0 <= x < s.live[h].0 + s.live[h].1;
        assert(regions::region_has(s.live[h], x));
    }
    if s.in_use(x) {
        let h = choose|h: u64| #[trigger]
            s.live.contains_key(h) && regions::region_has(s.live[h], x);
        assert(s.live[h].0 <= x < s.live[h].0 + s.live[h].1);
    }
}

/// Live regions start at a multiple of sixteen, are as long as one, and lie inside the capacity,
/// and each ends before or where another begins.
pub proof fn law_live_regions_placed(s: TernaryState, g: u64, h: u64)
    requires
        s.wf(),
        s.live.contains_key(g),
        s.live.contains_key(h),
        g != h,
    ensures
        s.live[g].0 % 16 == 0,
        s.live[g].1 % 16 == 0,
        s.live[g].1 > 0,
        s.live[g].0 + s.live[g].1 <= s.total,
        s.live[g].0 + s.live[g].1 <= s.live[h].0 || s.live[h].0 + s.live[h].1 <= s.live[g].0,
{
}

/// Between any two free regions stands a trit that is not free.
pub proof fn law_free_regions_apart(s: TernaryState, i: int, j: int)
    requires
        s.wf(),
        0 <= i < j < s.free.len(),
    ensures
        s.free[i].0 + s.free[i].1 < s.free[j].0 || s.free[j].0 + s.free[j].1 < s.free[i].0,
{
}

/// The used trits are zero when nothing is live, and otherwise those of any live region and of
/// the others.
pub proof fn law_used_adds_up(s: TernaryState)
    requires
        s.live.dom().finite(),
    ensures
        s.live.dom().is_empty() ==> s.used() == 0,
        forall|h: u64| #[trigger]
            s.live.contains_key(h) ==> s.used() == s.live[h].1 + (TernaryState {
                live: s.live.remove(h),
                ..s
            }).used(),
{
    assert forall|h: u64| #[trigger] s.live.contains_key(h) implies s.used() == s.live[h].1 + (
    TernaryState { live: s.live.remove(h), ..s }).used() by {
        totals::lemma_total_remove(s.live, ternary::region_length(), h);
    }
}

/// The lengths of no regions are zero, and one more region adds its own.
pub proof fn law_lengths_add_up(list: Seq<(usize, usize)>, r: (usize, usize))
    ensures
        regions::lengths(Seq::empty()) == 0,
        regions::lengths(list.push(r)) == regions::lengths(list) + r.1,
{
    regions::lemma_push_region(list, r);
}

} // verus!
