//! Sums over the values of finite maps.

use vstd::prelude::*;

verus! {

/// The sum of `size` over the values of a finite map.
pub open spec fn total<K, V>(m: Map<K, V>, size: spec_fn(V) -> nat) -> nat
    decreases m.dom().len(),
    when m.dom().finite()
{
    if m.dom().len() == 0 {
        0
    } else {
        let k = m.dom().choose();
        size(m[k]) + total(m.remove(k), size)
    }
}

/// Any key can be counted apart from the others.
pub proof fn lemma_total_remove<K, V>(m: Map<K, V>, size: spec_fn(V) -> nat, k: K)
    requires
        m.dom().finite(),
        m.contains_key(k),
    ensures
        total(m, size) == size(m[k]) + total(m.remove(k), size),
    decreases m.dom().len(),
{
    let c = m.dom().choose();
    if c != k {
        lemma_total_remove(m.remove(c), size, k);
        lemma_total_remove(m.remove(k), size, c);
        assert(m.remove(c).remove(k) =~= m.remove(k).remove(c));
    }
}

/// A new key adds the size of its value.
pub proof fn lemma_total_insert<K, V>(m: Map<K, V>, size: spec_fn(V) -> nat, k: K, v: V)
    requires
        m.dom().finite(),
        !m.contains_key(k),
    ensures
        total(m.insert(k, v), size) == size(v) + total(m, size),
{
    lemma_total_remove(m.insert(k, v), size, k);
    assert(m.insert(k, v).remove(k) =~= m);
}

/// A part of a map sums to no more than the whole.
pub proof fn lemma_total_restrict<K, V>(m: Map<K, V>, size: spec_fn(V) -> nat, keys: Set<K>)
    requires
        m.dom().finite(),
    ensures
        m.restrict(keys).dom().finite(),
        total(m.restrict(keys), size) <= total(m, size),
    decreases m.dom().len(),
{
    assert(m.restrict(keys).dom() =~= m.dom().intersect(keys));
    if m.dom().len() == 0 {
        assert(m.restrict(keys) =~= m);
    } else {
        let k = m.dom().choose();
        lemma_total_restrict(m.remove(k), size, keys);
        if keys.contains(k) {
            lemma_total_remove(m.restrict(keys), size, k);
            assert(m.restrict(keys).remove(k) =~= m.remove(k).restrict(keys));
        } else {
            assert(m.restrict(keys) =~= m.remove(k).restrict(keys));
        }
    }
}

/// One more key of a walk over the keys of a map adds the size of its value.
pub proof fn lemma_total_walk<K, V>(m: Map<K, V>, size: spec_fn(V) -> nat, keys: Seq<K>, i: int)
    requires
        m.dom().finite(),
        keys.no_duplicates(),
        keys.to_set() == m.dom(),
        0 <= i < keys.len(),
    ensures
        m.contains_key(keys[i]),
        total(m.restrict(keys.take(i + 1).to_set()), size) == total(
            m.restrict(keys.take(i).to_set()),
            size,
        ) + size(m[keys[i]]),
        total(m.restrict(keys.take(i + 1).to_set()), size) <= total(m, size),
{
    let before = m.restrict(keys.take(i).to_set());
    let after = m.restrict(keys.take(i + 1).to_set());
    assert(keys.to_set().contains(keys[i]));
    lemma_total_restrict(m, size, keys.take(i).to_set());
    lemma_total_restrict(m, size, keys.take(i + 1).to_set());
    assert(keys.take(i + 1)[i] == keys[i]);
    assert(keys.take(i + 1).to_set() =~= keys.take(i).to_set().insert(keys[i])) by {
        assert forall|k: K| keys.take(i).to_set().insert(keys[i]).contains(k) implies keys.take(
            i + 1,
        ).to_set().contains(k) by {
            if k != keys[i] {
                let j = choose|j: int| 0 <= j < i && #[trigger] keys.take(i)[j] == k;
                assert(keys.take(i + 1)[j] == k);
            }
        }
        assert forall|k: K| keys.take(i + 1).to_set().contains(k) implies keys.take(
            i,
        ).to_set().insert(keys[i]).contains(k) by {
            let j = choose|j: int| 0 <= j < i + 1 && #[trigger] keys.take(i + 1)[j] == k;
            if j < i {
                assert(keys.take(i)[j] == k);
            }
        }
    }
    assert(!keys.take(i).to_set().contains(keys[i]));
    assert(after =~= before.insert(keys[i], m[keys[i]]));
    lemma_total_insert(before, size, keys[i], m[keys[i]]);
}

/// A walk starts at zero and ends at the sum of the whole map.
pub proof fn lemma_total_walk_ends<K, V>(m: Map<K, V>, size: spec_fn(V) -> nat, keys: Seq<K>)
    requires
        m.dom().finite(),
        keys.to_set() == m.dom(),
    ensures
        total(m.restrict(keys.take(0).to_set()), size) == 0,
        total(m.restrict(keys.take(keys.len() as int).to_set()), size) == total(m, size),
{
    assert(m.restrict(keys.take(0).to_set()) =~= Map::empty());
    assert(keys.take(keys.len() as int) =~= keys);
    assert(m.restrict(keys.to_set()) =~= m);
}

/// Where every value has a size of at least one, the sum bounds the number of keys.
pub proof fn lemma_total_bounds_len<K, V>(m: Map<K, V>, size: spec_fn(V) -> nat)
    requires
        m.dom().finite(),
        forall|k: K| #[trigger] m.contains_key(k) ==> size(m[k]) >= 1,
    ensures
        m.dom().len() <= total(m, size),
    decreases m.dom().len(),
{
    if m.dom().len() > 0 {
        let k = m.dom().choose();
        assert(m.contains_key(k));
        lemma_total_bounds_len(m.remove(k), size);
    }
}

} // verus!
