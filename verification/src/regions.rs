//! Lists of free regions: first fit, and joining of adjacent regions.

use vstd::prelude::*;

verus! {

/// Trits in one packed word. Every region starts at a word and is made of whole words.
pub const TRITS_PER_WORD: usize = 16;

/// The first trit behind a region `(start, length)`.
pub open spec fn region_end(r: (usize, usize)) -> int {
    r.0 + r.1
}

/// Whether trit `x` belongs to the region.
pub open spec fn region_has(r: (usize, usize), x: int) -> bool {
    r.0 <= x < region_end(r)
}

/// Whether no trit belongs to both regions.
pub open spec fn disjoint(a: (usize, usize), b: (usize, usize)) -> bool {
    region_end(a) <= b.0 || region_end(b) <= a.0
}

/// Whether no trit belongs to both regions and they do not touch either.
pub open spec fn apart(a: (usize, usize), b: (usize, usize)) -> bool {
    region_end(a) < b.0 || region_end(b) < a.0
}

/// Whether the region is not empty, is made of whole words, and lies below `limit`.
pub open spec fn well_placed(r: (usize, usize), limit: int) -> bool {
    &&& r.1 > 0
    &&& r.0 as int % TRITS_PER_WORD as int == 0
    &&& r.1 as int % TRITS_PER_WORD as int == 0
    &&& region_end(r) <= limit
}

/// Whether trit `x` belongs to one of the regions.
pub open spec fn covers(regions: Seq<(usize, usize)>, x: int) -> bool {
    exists|i: int| 0 <= i < regions.len() && region_has(#[trigger] regions[i], x)
}

/// The sum of the lengths.
pub open spec fn lengths(regions: Seq<(usize, usize)>) -> nat
    decreases regions.len(),
{
    if regions.len() == 0 {
        0
    } else {
        lengths(regions.drop_last()) + regions.last().1 as nat
    }
}

/// Whether the regions are well placed and pairwise disjoint.
pub open spec fn valid(regions: Seq<(usize, usize)>, limit: int) -> bool {
    &&& forall|i: int| 0 <= i < regions.len() ==> well_placed(#[trigger] regions[i], limit)
    &&& forall|i: int, j: int|
        0 <= i < j < regions.len() ==> disjoint(#[trigger] regions[i], #[trigger] regions[j])
}

/// Whether no two of the regions touch.
pub open spec fn all_apart(regions: Seq<(usize, usize)>) -> bool {
    forall|i: int, j: int|
        0 <= i < j < regions.len() ==> apart(#[trigger] regions[i], #[trigger] regions[j])
}

/// Whether the regions are in ascending order, not empty, and no two of them touch.
pub open spec fn canonical(regions: Seq<(usize, usize)>) -> bool {
    &&& forall|i: int| 0 <= i < regions.len() ==> (#[trigger] regions[i]).1 > 0
    &&& forall|i: int, j: int|
        0 <= i < j < regions.len() ==> region_end(#[trigger] regions[i]) < (#[trigger] regions[j]).0
}

/// Whether two lists cover the same trits with the same total length.
pub open spec fn same_space(a: Seq<(usize, usize)>, b: Seq<(usize, usize)>) -> bool {
    &&& forall|x: int| #[trigger] covers(a, x) <==> covers(b, x)
    &&& lengths(a) == lengths(b)
}

/// The index of the first region from `from` onwards that is at least `needed` long, or the
/// number of regions.
pub open spec fn first_fit(regions: Seq<(usize, usize)>, needed: nat, from: nat) -> nat
    decreases regions.len() - from,
{
    if from >= regions.len() {
        regions.len()
    } else if regions[from as int].1 >= needed {
        from
    } else {
        first_fit(regions, needed, from + 1)
    }
}

/// `first_fit` finds the first region that is long enough.
pub proof fn lemma_first_fit_least(regions: Seq<(usize, usize)>, needed: nat, from: nat)
    requires
        from <= regions.len(),
    ensures
        from <= first_fit(regions, needed, from) <= regions.len(),
        forall|i: int|
            from <= i < first_fit(regions, needed, from) ==> (#[trigger] regions[i]).1 < needed,
        first_fit(regions, needed, from) < regions.len() ==> regions[first_fit(
            regions,
            needed,
            from,
        ) as int].1 >= needed,
    decreases regions.len() - from,
{
    if from < regions.len() && regions[from as int].1 < needed {
        lemma_first_fit_least(regions, needed, from + 1);
    }
}

/// Replacing one region changes the sum by the change of its length.
pub proof fn lemma_lengths_update(regions: Seq<(usize, usize)>, i: int, r: (usize, usize))
    requires
        0 <= i < regions.len(),
    ensures
        lengths(regions.update(i, r)) == lengths(regions) - regions[i].1 + r.1,
    decreases regions.len(),
{
    let n = regions.len() - 1;
    if i == n {
        assert(regions.update(i, r).drop_last() =~= regions.drop_last());
    } else {
        lemma_lengths_update(regions.drop_last(), i, r);
        assert(regions.update(i, r).drop_last() =~= regions.drop_last().update(i, r));
    }
}

/// Exchanging two regions keeps the regions.
proof fn lemma_exchange_multiset(regions: Seq<(usize, usize)>, i: int, j: int)
    requires
        0 <= i < j < regions.len(),
    ensures
        regions.update(i, regions[j]).update(j, regions[i]).to_multiset() == regions.to_multiset(),
{
    let after = regions.update(i, regions[j]).update(j, regions[i]);
    regions.to_multiset_ensures();
    regions.remove(j).to_multiset_ensures();
    after.to_multiset_ensures();
    after.remove(j).to_multiset_ensures();
    assert(after.remove(j).remove(i) =~= regions.remove(j).remove(i));
    let rest = regions.remove(j).remove(i).to_multiset();
    assert(regions.contains(regions[i]) && regions.contains(regions[j]));
    assert(regions.remove(j)[i] == regions[i]);
    assert(regions.remove(j).contains(regions[i]));
    assert(after[i] == regions[j] && after[j] == regions[i]);
    assert(after.contains(after[i]) && after.contains(after[j]));
    assert(after.remove(j)[i] == after[i]);
    assert(after.remove(j).contains(after[i]));
    assert(regions.to_multiset() =~= rest.insert(regions[i]).insert(regions[j]));
    assert(after.to_multiset() =~= rest.insert(after[i]).insert(after[j]));
    assert(after.to_multiset() =~= regions.to_multiset());
}

/// Exchanging two regions keeps the list valid and its space the same.
proof fn lemma_exchange(regions: Seq<(usize, usize)>, i: int, j: int, limit: int)
    requires
        valid(regions, limit),
        0 <= i < j < regions.len(),
    ensures
        valid(regions.update(i, regions[j]).update(j, regions[i]), limit),
        same_space(regions.update(i, regions[j]).update(j, regions[i]), regions),
        regions.update(i, regions[j]).update(j, regions[i]).to_multiset() == regions.to_multiset(),
{
    lemma_exchange_multiset(regions, i, j);
    let after = regions.update(i, regions[j]).update(j, regions[i]);
    lemma_lengths_update(regions, i, regions[j]);
    lemma_lengths_update(regions.update(i, regions[j]), j, regions[i]);
    assert forall|x: int| #[trigger] covers(after, x) <==> covers(regions, x) by {
        if covers(after, x) {
            let k = choose|k: int| 0 <= k < after.len() && region_has(#[trigger] after[k], x);
            let m = if k == i { j } else if k == j { i } else { k };
            assert(regions[m] == after[k]);
        }
        if covers(regions, x) {
            let k = choose|k: int| 0 <= k < regions.len() && region_has(#[trigger] regions[k], x);
            let m = if k == i { j } else if k == j { i } else { k };
            assert(after[m] == regions[k]);
        }
    }
    assert forall|a: int, b: int| 0 <= a < b < after.len() implies disjoint(
        #[trigger] after[a],
        #[trigger] after[b],
    ) by {
        let p = if a == i { j } else if a == j { i } else { a };
        let q = if b == i { j } else if b == j { i } else { b };
        assert(after[a] == regions[p] && after[b] == regions[q]);
        if p < q {
            assert(disjoint(regions[p], regions[q]));
        } else {
            assert(disjoint(regions[q], regions[p]));
        }
    }
}

/// Sort regions by their start.
pub(crate) fn sort_by_start(regions: &mut Vec<(usize, usize)>, Ghost(limit): Ghost<int>)
    requires
        valid(old(regions)@, limit),
    ensures
        valid(final(regions)@, limit),
        same_space(final(regions)@, old(regions)@),
        final(regions)@.to_multiset() == old(regions)@.to_multiset(),
        forall|i: int, j: int|
            0 <= i < j < final(regions)@.len() ==> (#[trigger] final(regions)@[i]).0 <= (
            #[trigger] final(regions)@[j]).0,
{
    let ghost given = regions@;
    let mut i: usize = 0;
    while i < regions.len()
        invariant
            i <= regions@.len() == given.len(),
            valid(regions@, limit),
            same_space(regions@, given),
            regions@.to_multiset() == given.to_multiset(),
            forall|a: int, b: int|
                0 <= a < b < i ==> (#[trigger] regions@[a]).0 <= (#[trigger] regions@[b]).0,
        decreases regions@.len() - i,
    {
        let mut j: usize = i;
        while j > 0 && regions[j - 1].0 > regions[j].0
            invariant
                j <= i < regions@.len() == given.len(),
                valid(regions@, limit),
                same_space(regions@, given),
                regions@.to_multiset() == given.to_multiset(),
                forall|a: int, b: int|
                    0 <= a < b <= i && b != j ==> (#[trigger] regions@[a]).0 <= (
                    #[trigger] regions@[b]).0,
            decreases j,
        {
            let left = regions[j - 1];
            let right = regions[j];
            proof {
                lemma_exchange(regions@, j - 1, j as int, limit);
            }
            regions.set(j - 1, right);
            regions.set(j, left);
            j = j - 1;
        }
        i = i + 1;
    }
}

/// What the first `k + 1` regions cover, and their length.
proof fn lemma_take_one_more(regions: Seq<(usize, usize)>, k: int)
    requires
        0 <= k < regions.len(),
    ensures
        forall|x: int| #[trigger]
            covers(regions.take(k + 1), x) <==> covers(regions.take(k), x) || region_has(
                regions[k],
                x,
            ),
        lengths(regions.take(k + 1)) == lengths(regions.take(k)) + regions[k].1,
{
    lemma_push_region(regions.take(k), regions[k]);
    assert(regions.take(k + 1) =~= regions.take(k).push(regions[k]));
}

/// What a list covers with one more region, and its length.
pub proof fn lemma_push_region(regions: Seq<(usize, usize)>, r: (usize, usize))
    ensures
        forall|x: int| #[trigger]
            covers(regions.push(r), x) <==> covers(regions, x) || region_has(r, x),
        lengths(regions.push(r)) == lengths(regions) + r.1,
{
    let after = regions.push(r);
    assert(after.drop_last() =~= regions);
    assert forall|x: int| #[trigger] covers(after, x) <==> covers(regions, x) || region_has(r, x) by {
        if covers(regions, x) {
            let i = choose|i: int| 0 <= i < regions.len() && region_has(#[trigger] regions[i], x);
            assert(after[i] == regions[i]);
        }
        if region_has(r, x) {
            assert(after[regions.len() as int] == r);
        }
        if covers(after, x) {
            let i = choose|i: int| 0 <= i < after.len() && region_has(#[trigger] after[i], x);
            if i < regions.len() {
                assert(regions[i] == after[i]);
            }
        }
    }
}

/// Join regions that touch. The regions must be in ascending order.
pub(crate) fn join_adjacent(regions: &Vec<(usize, usize)>, Ghost(limit): Ghost<int>) -> (merged: Vec<
    (usize, usize),
>)
    requires
        valid(regions@, limit),
        limit <= usize::MAX,
        forall|i: int, j: int|
            0 <= i < j < regions@.len() ==> (#[trigger] regions@[i]).0 <= (#[trigger] regions@[j]).0,
    ensures
        valid(merged@, limit),
        canonical(merged@),
        same_space(merged@, regions@),
{
    let mut merged: Vec<(usize, usize)> = Vec::with_capacity(regions.len());
    if regions.len() == 0 {
        assert(merged@ =~= regions@);
        return merged;
    }
    let mut current = regions[0];
    let mut k: usize = 1;
    proof {
        lemma_take_one_more(regions@, 0);
        assert(regions@.take(0) =~= merged@);
    }
    while k < regions.len()
        invariant
            1 <= k <= regions@.len(),
            limit <= usize::MAX,
            valid(regions@, limit),
            forall|i: int, j: int|
                0 <= i < j < regions@.len() ==> (#[trigger] regions@[i]).0 <= (
                #[trigger] regions@[j]).0,
            well_placed(current, limit),
            current.0 <= regions@[k - 1].0,
            region_end(current) == region_end(regions@[k - 1]),
            valid(merged@, limit),
            canonical(merged@),
            forall|i: int|
                0 <= i < merged@.len() ==> region_end(#[trigger] merged@[i]) < current.0,
            forall|x: int| #[trigger]
                covers(regions@.take(k as int), x) <==> covers(merged@, x) || region_has(current, x),
            lengths(regions@.take(k as int)) == lengths(merged@) + current.1,
        decreases regions@.len() - k,
    {
        let next = regions[k];
        proof {
            lemma_take_one_more(regions@, k as int);
            assert(disjoint(regions@[k - 1], regions@[k as int]));
            assert(well_placed(regions@[k as int], limit));
        }
        if current.0 + current.1 == next.0 {
            current = (current.0, current.1 + next.1);
        } else {
            proof {
                lemma_push_region(merged@, current);
            }
            merged.push(current);
            current = next;
        }
        k = k + 1;
    }
    proof {
        lemma_push_region(merged@, current);
        assert(regions@.take(k as int) =~= regions@);
    }
    merged.push(current);
    merged
}

/// Two lists in canonical form that cover the same trits are the same list.
pub proof fn law_canonical_form_unique(a: Seq<(usize, usize)>, b: Seq<(usize, usize)>)
    requires
        canonical(a),
        canonical(b),
        forall|x: int| #[trigger] covers(a, x) <==> covers(b, x),
    ensures
        a == b,
    decreases a.len(),
{
    if a.len() == 0 || b.len() == 0 {
        if a.len() > 0 {
            assert(region_has(a[0], a[0].0 as int));
            assert(covers(a, a[0].0 as int));
        }
        if b.len() > 0 {
            assert(region_has(b[0], b[0].0 as int));
            assert(covers(b, b[0].0 as int));
            assert(covers(a, b[0].0 as int));
        }
        assert(a =~= b);
    } else {
        assert(region_has(a[0], a[0].0 as int));
        assert(covers(a, a[0].0 as int));
        assert(region_has(b[0], b[0].0 as int));
        assert(covers(b, b[0].0 as int));
        lemma_canonical_starts(a, b);
        lemma_canonical_starts(b, a);
        lemma_canonical_ends(a, b);
        lemma_canonical_ends(b, a);
        let rest_a = a.drop_first();
        let rest_b = b.drop_first();
        lemma_canonical_rest(a);
        lemma_canonical_rest(b);
        assert forall|x: int| #[trigger] covers(rest_a, x) <==> covers(rest_b, x) by {
            assert(covers(a, x) <==> covers(b, x));
        }
        law_canonical_form_unique(rest_a, rest_b);
        assert(a =~= seq![a[0]] + rest_a);
        assert(b =~= seq![b[0]] + rest_b);
    }
}

proof fn lemma_canonical_starts(a: Seq<(usize, usize)>, b: Seq<(usize, usize)>)
    requires
        canonical(a),
        a.len() > 0,
        b.len() > 0,
        covers(a, b[0].0 as int),
    ensures
        a[0].0 <= b[0].0,
{
    let i = choose|i: int| 0 <= i < a.len() && region_has(#[trigger] a[i], b[0].0 as int);
    if i > 0 {
        assert(region_end(a[0]) < a[i].0);
    }
}

proof fn lemma_canonical_ends(a: Seq<(usize, usize)>, b: Seq<(usize, usize)>)
    requires
        canonical(a),
        canonical(b),
        a.len() > 0,
        b.len() > 0,
        a[0].0 == b[0].0,
        forall|x: int| #[trigger] covers(a, x) <==> covers(b, x),
    ensures
        a[0].1 <= b[0].1,
{
    if a[0].1 > b[0].1 {
        let x = region_end(b[0]);
        assert(region_has(a[0], x));
        assert(covers(a, x));
        let i = choose|i: int| 0 <= i < b.len() && region_has(#[trigger] b[i], x);
        if i > 0 {
            assert(region_end(b[0]) < b[i].0);
        }
    }
}

proof fn lemma_canonical_rest(a: Seq<(usize, usize)>)
    requires
        canonical(a),
        a.len() > 0,
    ensures
        canonical(a.drop_first()),
        forall|x: int| #[trigger]
            covers(a.drop_first(), x) <==> covers(a, x) && x >= region_end(a[0]),
{
    let rest = a.drop_first();
    assert forall|x: int| #[trigger] covers(rest, x) <==> covers(a, x) && x >= region_end(a[0]) by {
        if covers(rest, x) {
            let i = choose|i: int| 0 <= i < rest.len() && region_has(#[trigger] rest[i], x);
            assert(rest[i] == a[i + 1]);
            assert(region_end(a[0]) < a[i + 1].0);
        }
        if covers(a, x) && x >= region_end(a[0]) {
            let i = choose|i: int| 0 <= i < a.len() && region_has(#[trigger] a[i], x);
            assert(rest[i - 1] == a[i]);
        }
    }
}

/// The trits that the regions cover.
pub open spec fn covered_trits(regions: Seq<(usize, usize)>) -> Set<int> {
    Set::new(|x: int| covers(regions, x))
}

/// The lengths of disjoint regions add up to the number of trits that they cover.
pub proof fn law_lengths_count_trits(regions: Seq<(usize, usize)>)
    requires
        forall|i: int, j: int|
            0 <= i < j < regions.len() ==> disjoint(#[trigger] regions[i], #[trigger] regions[j]),
    ensures
        covered_trits(regions).finite(),
        covered_trits(regions).len() == lengths(regions),
    decreases regions.len(),
{
    if regions.len() == 0 {
        assert(covered_trits(regions) =~= Set::empty());
    } else {
        let n = regions.len() - 1;
        let lower = regions.drop_last();
        let r = regions.last();
        assert forall|i: int, j: int| 0 <= i < j < lower.len() implies disjoint(
            #[trigger] lower[i],
            #[trigger] lower[j],
        ) by {
            assert(disjoint(regions[i], regions[j]));
        }
        law_lengths_count_trits(lower);
        lemma_push_region(lower, r);
        assert(lower.push(r) =~= regions);
        let range = vstd::set_lib::set_int_range(r.0 as int, region_end(r));
        vstd::set_lib::lemma_int_range(r.0 as int, region_end(r));
        assert(covered_trits(regions) =~= covered_trits(lower) + range);
        assert forall|x: int| #[trigger] covered_trits(lower).contains(x) implies !range.contains(x) by {
            let i = choose|i: int| 0 <= i < lower.len() && region_has(#[trigger] lower[i], x);
            assert(disjoint(regions[i], regions[n]));
        }
        vstd::set_lib::lemma_set_disjoint_lens(covered_trits(lower), range);
    }
}

/// A list in canonical form that covers the same trits as a valid list is valid too, and has
/// the same total length.
pub proof fn lemma_canonical_valid(a: Seq<(usize, usize)>, b: Seq<(usize, usize)>, limit: int)
    requires
        canonical(a),
        valid(b, limit),
        forall|x: int| #[trigger] covers(a, x) <==> covers(b, x),
    ensures
        valid(a, limit),
        lengths(a) == lengths(b),
{
    assert forall|i: int| 0 <= i < a.len() implies well_placed(#[trigger] a[i], limit) by {
        let start = a[i].0 as int;
        let end = region_end(a[i]);
        assert(region_has(a[i], start) && region_has(a[i], end - 1));
        assert(covers(a, start) && covers(a, end - 1));
        assert(!covers(a, start - 1)) by {
            if covers(a, start - 1) {
                let k = choose|k: int| 0 <= k < a.len() && region_has(#[trigger] a[k], start - 1);
                if k < i {
                    assert(region_end(a[k]) < a[i].0);
                } else if i < k {
                    assert(region_end(a[i]) < a[k].0);
                }
            }
        }
        assert(!covers(a, end)) by {
            if covers(a, end) {
                let k = choose|k: int| 0 <= k < a.len() && region_has(#[trigger] a[k], end);
                if k < i {
                    assert(region_end(a[k]) < a[i].0);
                } else if i < k {
                    assert(region_end(a[i]) < a[k].0);
                }
            }
        }
        let j = choose|j: int| 0 <= j < b.len() && region_has(#[trigger] b[j], start);
        assert(b[j].0 == start) by {
            if b[j].0 < start {
                assert(region_has(b[j], start - 1));
                assert(covers(b, start - 1));
            }
        }
        let k = choose|k: int| 0 <= k < b.len() && region_has(#[trigger] b[k], end - 1);
        assert(region_end(b[k]) == end) by {
            if end < region_end(b[k]) {
                assert(region_has(b[k], end));
                assert(covers(b, end));
            }
        }
        assert(well_placed(b[j], limit) && well_placed(b[k], limit));
    }
    law_lengths_count_trits(a);
    law_lengths_count_trits(b);
    assert(covered_trits(a) =~= covered_trits(b));
}

} // verus!
