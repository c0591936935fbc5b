//! Lists kept in order while they are built, one item at a time.

use vstd::prelude::*;

verus! {

/// Whether no item of the list comes before an earlier one.
pub open spec fn ascending<T>(list: Seq<T>, before: spec_fn(T, T) -> bool) -> bool {
    forall|i: int, j: int| 0 <= i < j < list.len() ==> !before(#[trigger] list[j], #[trigger] list[i])
}

/// An item put where nothing after it comes before it, and it comes before
/// nothing that is ahead of it, leaves the list in order.
pub proof fn lemma_insert_ascending<T>(list: Seq<T>, item: T, at: int, before: spec_fn(T, T) -> bool)
    requires
        ascending(list, before),
        0 <= at <= list.len(),
        forall|i: int| 0 <= i < at ==> !before(item, #[trigger] list[i]),
        forall|i: int| at <= i < list.len() ==> !before(#[trigger] list[i], item),
    ensures
        ascending(list.insert(at, item), before),
{
    let grown = list.insert(at, item);
    assert forall|i: int, j: int| 0 <= i < j < grown.len() implies !before(
        #[trigger] grown[j],
        #[trigger] grown[i],
    ) by {
        if j < at {
            assert(grown[i] == list[i] && grown[j] == list[j]);
        } else if j == at {
            assert(grown[i] == list[i]);
        } else if i < at {
            assert(grown[i] == list[i] && grown[j] == list[j - 1]);
        } else if i == at {
            assert(grown[j] == list[j - 1]);
        } else {
            assert(grown[i] == list[i - 1] && grown[j] == list[j - 1]);
        }
    }
}

/// A list with one item put in holds that item and what it held before.
pub proof fn lemma_insert_contains<T>(list: Seq<T>, item: T, at: int)
    requires
        0 <= at <= list.len(),
    ensures
        forall|other: T| #[trigger]
            list.insert(at, item).contains(other) <==> list.contains(other) || other == item,
        !list.contains(item) && list.no_duplicates() ==> list.insert(at, item).no_duplicates(),
{
    let grown = list.insert(at, item);
    assert forall|other: T| #[trigger] grown.contains(other) <==> list.contains(other) || other
        == item by {
        if grown.contains(other) {
            let i = choose|i: int| 0 <= i < grown.len() && grown[i] == other;
            if i < at {
                assert(list[i] == other);
            } else if i > at {
                assert(list[i - 1] == other);
            }
        }
        if list.contains(other) {
            let i = choose|i: int| 0 <= i < list.len() && list[i] == other;
            if i < at {
                assert(grown[i] == other);
            } else {
                assert(grown[i + 1] == other);
            }
        }
        if other == item {
            assert(grown[at] == other);
        }
    }
    if !list.contains(item) && list.no_duplicates() {
        assert forall|i: int, j: int| 0 <= i < grown.len() && 0 <= j < grown.len() && i != j implies grown[i]
            != grown[j] by {
            let from_i = if i < at { i } else { i - 1 };
            let from_j = if j < at { j } else { j - 1 };
            if i != at && j != at {
                assert(grown[i] == list[from_i] && grown[j] == list[from_j]);
            } else if i == at {
                assert(grown[j] == list[from_j]);
                assert(list.contains(list[from_j]));
            } else {
                assert(grown[i] == list[from_i]);
                assert(list.contains(list[from_i]));
            }
        }
    }
}

/// What the first items of a list hold grows by one item with each step.
pub proof fn lemma_take_contains<T>(list: Seq<T>, count: int)
    requires
        0 <= count < list.len(),
    ensures
        forall|other: T| #[trigger]
            list.take(count + 1).contains(other) <==> list.take(count).contains(other) || other
                == list[count],
        list.no_duplicates() ==> !list.take(count).contains(list[count]),
{
    let short = list.take(count);
    let long = list.take(count + 1);
    assert forall|other: T| #[trigger] long.contains(other) <==> short.contains(other) || other
        == list[count] by {
        if long.contains(other) {
            let i = choose|i: int| 0 <= i < long.len() && long[i] == other;
            if i < count {
                assert(short[i] == other);
            }
        }
        if short.contains(other) {
            let i = choose|i: int| 0 <= i < short.len() && short[i] == other;
            assert(long[i] == other);
        }
        if other == list[count] {
            assert(long[count] == other);
        }
    }
    if list.no_duplicates() && short.contains(list[count]) {
        let i = choose|i: int| 0 <= i < short.len() && short[i] == list[count];
        assert(list[i] == list[count]);
    }
}

} // verus!
