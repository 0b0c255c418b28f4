//! Lists that items are pushed onto and taken from.

use vstd::prelude::*;

verus! {

/// Whether `x` stands in the list.
pub open spec fn holds(list: Seq<usize>, x: int) -> bool {
    exists|i: int| 0 <= i < list.len() && #[trigger] list[i] == x
}

/// The list without its `i`-th item, whose place the last item takes.
pub open spec fn swap_removed<T>(list: Seq<T>, i: int) -> Seq<T> {
    list.update(i, list.last()).drop_last()
}

/// What pushing an item does to a list without duplicates.
pub proof fn lemma_push(list: Seq<usize>, x: usize)
    requires
        list.no_duplicates(),
        !holds(list, x as int),
    ensures
        list.push(x).no_duplicates(),
        forall|y: int| #[trigger] holds(list.push(x), y) <==> holds(list, y) || y == x,
{
    assert forall|y: int| holds(list, y) || y == x implies #[trigger] holds(list.push(x), y) by {
        if y == x {
            assert(list.push(x)[list.len() as int] == y);
        } else {
            let i = choose|i: int| 0 <= i < list.len() && #[trigger] list[i] == y;
            assert(list.push(x)[i] == y);
        }
    }
    assert forall|y: int| #[trigger] holds(list.push(x), y) implies holds(list, y) || y == x by {
        let i = choose|i: int| 0 <= i < list.push(x).len() && #[trigger] list.push(x)[i] == y;
        if i < list.len() {
            assert(list[i] == y);
        }
    }
}

/// What taking an item does to a list without duplicates.
pub proof fn lemma_take(list: Seq<usize>, i: int)
    requires
        list.no_duplicates(),
        0 <= i < list.len(),
    ensures
        swap_removed(list, i).no_duplicates(),
        swap_removed(list, i).len() == list.len() - 1,
        forall|y: int| #[trigger]
            holds(swap_removed(list, i), y) <==> holds(list, y) && y != list[i],
{
    let after = swap_removed(list, i);
    assert forall|y: int| holds(list, y) && y != list[i] implies #[trigger] holds(after, y) by {
        let j = choose|j: int| 0 <= j < list.len() && #[trigger] list[j] == y;
        if j == list.len() - 1 {
            assert(after[i] == y);
        } else {
            assert(after[j] == y);
        }
    }
    assert forall|y: int| #[trigger] holds(after, y) implies holds(list, y) && y != list[i] by {
        let j = choose|j: int| 0 <= j < after.len() && #[trigger] after[j] == y;
        if j == i {
            assert(list[list.len() - 1] == y);
        } else {
            assert(list[j] == y);
        }
    }
}

} // verus!
