//! Searching and sorting rows.

use vstd::prelude::*;

verus! {

/// What the items of a row hold.
pub open spec fn models<T: View>(s: Seq<T>) -> Seq<T::V> {
    s.map_values(|item: T| item@)
}

/// A row with one more item holds what the item holds too.
pub broadcast proof fn models_of_push<T: View>(s: Seq<T>, item: T)
    ensures
        #[trigger] models(s.push(item)) == models(s).push(item@),
{
    assert(models(s.push(item)) == models(s).push(item@));
}

/// A row with one item replaced holds what the new item holds in its place.
pub broadcast proof fn models_of_update<T: View>(s: Seq<T>, i: int, item: T)
    requires
        0 <= i < s.len(),
    ensures
        #[trigger] models(s.update(i, item)) == models(s).update(i, item@),
{
    assert(models(s.update(i, item)) == models(s).update(i, item@));
}

// ---------------------------------------------------------------------------
// Positions
// ---------------------------------------------------------------------------

/// Where the first item that passes a test stands.
pub open spec fn position<T>(s: Seq<T>, test: spec_fn(T) -> bool) -> Option<int>
    decreases s.len(),
{
    if s.len() == 0 {
        None
    } else {
        match position(s.drop_last(), test) {
            Some(i) => Some(i),
            None => if test(s.last()) {
                Some(s.len() - 1)
            } else {
                None
            },
        }
    }
}

/// The position found is that of the first item to pass the test, and there is
/// one exactly where some item passes.
pub proof fn position_is_the_first<T>(s: Seq<T>, test: spec_fn(T) -> bool)
    ensures
        match position(s, test) {
            Some(i) => 0 <= i < s.len() && test(s[i]) && forall|j: int|
                0 <= j < i ==> !test(#[trigger] s[j]),
            None => forall|j: int| 0 <= j < s.len() ==> !test(#[trigger] s[j]),
        },
    decreases s.len(),
{
    if s.len() > 0 {
        let t = s.drop_last();
        position_is_the_first(t, test);
        match position(t, test) {
            Some(i) => {
                assert(t[i] == s[i]);
                assert forall|j: int| 0 <= j < i implies !test(#[trigger] s[j]) by {
                    assert(t[j] == s[j]);
                }
            },
            None => {
                assert forall|j: int| 0 <= j < s.len() - 1 implies !test(#[trigger] s[j]) by {
                    assert(t[j] == s[j]);
                }
            },
        }
    }
}

/// An item that passes, after items that do not, is the position.
pub proof fn lemma_position_found<T>(s: Seq<T>, test: spec_fn(T) -> bool, i: int)
    requires
        0 <= i < s.len(),
        test(s[i]),
        forall|j: int| 0 <= j < i ==> !test(#[trigger] s[j]),
    ensures
        position(s, test) == Some(i),
{
    position_is_the_first(s, test);
    match position(s, test) {
        Some(k) => {
            if k < i {
                assert(!test(s[k]));
            }
            if i < k {
                assert(!test(s[i]));
            }
        },
        None => {
            assert(!test(s[i]));
        },
    }
}

/// Finds the first item that passes a test.
pub(crate) fn find_by<T: View, F: Fn(&T) -> bool>(
    items: &Vec<T>,
    passes: F,
    Ghost(test): Ghost<spec_fn(T::V) -> bool>,
) -> (result: Option<usize>)
    requires
        forall|item: &T| #[trigger] call_requires(passes, (item,)),
        forall|item: &T, answer: bool| #[trigger]
            call_ensures(passes, (item,), answer) ==> answer == test(item@),
    ensures
        match result {
            Some(i) => position(models(items@), test) == Some(i as int) && i < items@.len() && test(
                items@[i as int]@,
            ),
            None => position(models(items@), test) is None,
        },
{
    let ghost all = models(items@);
    for i in 0..items.len()
        invariant
            all == models(items@),
            forall|item: &T| #[trigger] call_requires(passes, (item,)),
            forall|item: &T, answer: bool| #[trigger]
                call_ensures(passes, (item,), answer) ==> answer == test(item@),
            forall|j: int| 0 <= j < i ==> !test(#[trigger] all[j]),
    {
        if passes(&items[i]) {
            proof {
                lemma_position_found(all, test, i as int);
            }
            return Some(i);
        }
    }
    proof {
        position_is_the_first(all, test);
    }
    None
}

/// All items, borrowed.
pub(crate) fn each_of<'a, T: View>(items: &'a Vec<T>) -> (result: Vec<&'a T>)
    ensures
        models(result@) == models(items@),
{
    let mut borrowed: Vec<&'a T> = Vec::new();
    for i in 0..items.len()
        invariant
            models(borrowed@) == models(items@).take(i as int),
    {
        let ghost before = borrowed@;
        borrowed.push(&items[i]);
        assert(models(borrowed@) == models(before).push(items@[i as int]@));
        assert(models(borrowed@) == models(items@).take(i + 1));
    }
    assert(models(items@).take(items@.len() as int) == models(items@));
    borrowed
}

/// Picks out the items that pass a test.
pub(crate) fn select_by<'a, T: View, F: Fn(&T) -> bool>(
    items: &'a Vec<T>,
    passes: F,
    Ghost(test): Ghost<spec_fn(T::V) -> bool>,
) -> (result: Vec<&'a T>)
    requires
        forall|item: &T| #[trigger] call_requires(passes, (item,)),
        forall|item: &T, answer: bool| #[trigger]
            call_ensures(passes, (item,), answer) ==> answer == test(item@),
    ensures
        models(result@) == models(items@).filter(test),
{
    let ghost all = models(items@);
    let mut selected: Vec<&'a T> = Vec::new();
    proof {
        reveal(Seq::filter);
        assert(models(selected@) == all.take(0).filter(test));
    }
    for i in 0..items.len()
        invariant
            all == models(items@),
            forall|item: &T| #[trigger] call_requires(passes, (item,)),
            forall|item: &T, answer: bool| #[trigger]
                call_ensures(passes, (item,), answer) ==> answer == test(item@),
            models(selected@) == all.take(i as int).filter(test),
    {
        let ghost before = selected@;
        proof {
            assert(all.take(i + 1) == all.take(i as int).push(all[i as int]));
            lemma_filter_push(all.take(i as int), all[i as int], test);
        }
        if passes(&items[i]) {
            selected.push(&items[i]);
            assert(models(selected@) == models(before).push(all[i as int]));
        }
    }
    assert(all.take(all.len() as int) == all);
    selected
}

// ---------------------------------------------------------------------------
// First of each group
// ---------------------------------------------------------------------------

/// The items that no earlier item is grouped with, in their order.
pub open spec fn firsts<T>(s: Seq<T>, grouped: spec_fn(T, T) -> bool) -> Seq<T>
    decreases s.len(),
{
    if s.len() == 0 {
        s
    } else {
        let before = firsts(s.drop_last(), grouped);
        if exists|i: int| 0 <= i < before.len() && grouped(#[trigger] before[i], s.last()) {
            before
        } else {
            before.push(s.last())
        }
    }
}

/// Whether a relation sorts items into groups: each with itself, the same seen
/// from both sides, and carried on from one to the next.
pub open spec fn is_grouping<T>(grouped: spec_fn(T, T) -> bool) -> bool {
    &&& forall|a: T| #[trigger] grouped(a, a)
    &&& forall|a: T, b: T| #[trigger] grouped(a, b) ==> grouped(b, a)
    &&& forall|a: T, b: T, c: T| #[trigger] grouped(a, b) && #[trigger] grouped(b, c) ==> grouped(
        a,
        c,
    )
}

/// Every item has its group among the first ones, no two of which share a group.
pub proof fn firsts_stand_for_their_groups<T>(s: Seq<T>, grouped: spec_fn(T, T) -> bool)
    requires
        is_grouping(grouped),
    ensures
        forall|i: int|
            0 <= i < s.len() ==> exists|k: int|
                0 <= k < firsts(s, grouped).len() && grouped(
                    #[trigger] firsts(s, grouped)[k],
                    #[trigger] s[i],
                ),
        forall|j: int, k: int|
            0 <= j < k < firsts(s, grouped).len() ==> !grouped(
                #[trigger] firsts(s, grouped)[j],
                #[trigger] firsts(s, grouped)[k],
            ),
    decreases s.len(),
{
    if s.len() > 0 {
        let t = s.drop_last();
        let before = firsts(t, grouped);
        let after = firsts(s, grouped);
        firsts_stand_for_their_groups(t, grouped);
        assert forall|i: int| 0 <= i < s.len() implies exists|k: int|
            0 <= k < after.len() && grouped(#[trigger] after[k], #[trigger] s[i]) by {
            if i < t.len() {
                assert(t[i] == s[i]);
                let k = choose|k: int|
                    0 <= k < before.len() && grouped(#[trigger] before[k], t[i]);
                assert(after[k] == before[k]);
            } else if after.len() == before.len() {
                let k = choose|k: int|
                    0 <= k < before.len() && grouped(#[trigger] before[k], s.last());
                assert(grouped(after[k], s[i]));
            } else {
                assert(grouped(after[after.len() - 1], s[i]));
            }
        }
        assert forall|j: int, k: int| 0 <= j < k < after.len() implies !grouped(
            #[trigger] after[j],
            #[trigger] after[k],
        ) by {
            assert(after[j] == before[j]);
            if k < before.len() {
                assert(after[k] == before[k]);
            }
        }
    }
}

/// The first items of groups are items.
pub proof fn firsts_were_there<T>(s: Seq<T>, grouped: spec_fn(T, T) -> bool)
    ensures
        forall|k: int|
            0 <= k < firsts(s, grouped).len() ==> s.contains(#[trigger] firsts(s, grouped)[k]),
    decreases s.len(),
{
    if s.len() > 0 {
        let t = s.drop_last();
        let was = firsts(t, grouped);
        let is = firsts(s, grouped);
        firsts_were_there(t, grouped);
        assert forall|k: int| 0 <= k < is.len() implies s.contains(#[trigger] is[k]) by {
            if k < was.len() {
                assert(is[k] == was[k]);
                assert(t.contains(was[k]));
                let i = choose|i: int| 0 <= i < t.len() && t[i] == was[k];
                assert(s[i] == is[k]);
            } else {
                assert(s[s.len() - 1] == is[k]);
            }
        }
    }
}

/// There are no more first items than items.
pub proof fn lemma_firsts_are_fewer<T>(s: Seq<T>, grouped: spec_fn(T, T) -> bool)
    ensures
        firsts(s, grouped).len() <= s.len(),
    decreases s.len(),
{
    if s.len() > 0 {
        lemma_firsts_are_fewer(s.drop_last(), grouped);
    }
}

/// What a filter keeps was there, and passes.
pub proof fn filtered_items_were_there<T>(s: Seq<T>, test: spec_fn(T) -> bool)
    ensures
        forall|k: int|
            0 <= k < s.filter(test).len() ==> s.contains(#[trigger] s.filter(test)[k]) && test(
                s.filter(test)[k],
            ),
    decreases s.len(),
{
    reveal(Seq::filter);
    if s.len() > 0 {
        let t = s.drop_last();
        filtered_items_were_there(t, test);
        assert forall|k: int| 0 <= k < s.filter(test).len() implies s.contains(
            #[trigger] s.filter(test)[k],
        ) && test(s.filter(test)[k]) by {
            if k < t.filter(test).len() {
                assert(t.contains(t.filter(test)[k]));
                let i = choose|i: int| 0 <= i < t.len() && t[i] == t.filter(test)[k];
                assert(s[i] == s.filter(test)[k]);
            } else {
                assert(s[s.len() - 1] == s.filter(test)[k]);
            }
        }
    }
}

/// A filter that nothing passes keeps nothing.
pub proof fn nothing_passes<T>(s: Seq<T>, test: spec_fn(T) -> bool)
    requires
        forall|i: int| 0 <= i < s.len() ==> !test(#[trigger] s[i]),
    ensures
        s.filter(test) == Seq::<T>::empty(),
    decreases s.len(),
{
    reveal(Seq::filter);
    if s.len() > 0 {
        let t = s.drop_last();
        assert forall|i: int| 0 <= i < t.len() implies !test(#[trigger] t[i]) by {
            assert(t[i] == s[i]);
        }
        nothing_passes(t, test);
        assert(s.last() == s[s.len() - 1]);
    }
}

/// What passes a filter is kept by it.
pub proof fn passing_items_are_kept<T>(s: Seq<T>, test: spec_fn(T) -> bool, item: T)
    requires
        s.contains(item),
        test(item),
    ensures
        s.filter(test).contains(item),
    decreases s.len(),
{
    reveal(Seq::filter);
    let t = s.drop_last();
    let kept = t.filter(test);
    if s.last() == item {
        assert(s.filter(test)[kept.len() as int] == item);
    } else {
        let i = choose|i: int| 0 <= i < s.len() && s[i] == item;
        assert(t[i] == item);
        passing_items_are_kept(t, test, item);
        let k = choose|k: int| 0 <= k < kept.len() && kept[k] == item;
        assert(s.filter(test)[k] == item);
    }
}

// ---------------------------------------------------------------------------
// Stable sorting
// ---------------------------------------------------------------------------

/// A sorted row with one more item, which stands after all that do not come
/// after it.
pub open spec fn with_item<T>(s: Seq<T>, item: T, before: spec_fn(T, T) -> bool) -> Seq<T>
    decreases s.len(),
{
    if s.len() > 0 && before(item, s.last()) {
        with_item(s.drop_last(), item, before).push(s.last())
    } else {
        s.push(item)
    }
}

/// Items in order; those that neither comes before the other keep their order.
pub open spec fn stable_sorted<T>(s: Seq<T>, before: spec_fn(T, T) -> bool) -> Seq<T>
    decreases s.len(),
{
    if s.len() == 0 {
        s
    } else {
        with_item(stable_sorted(s.drop_last(), before), s.last(), before)
    }
}

/// Whether a relation can sort: no item comes before itself or before one that
/// comes before it, and of three items, one that comes before another comes
/// before the third, or the third comes before the other.
pub open spec fn can_sort<T>(before: spec_fn(T, T) -> bool) -> bool {
    &&& forall|a: T, b: T| #[trigger] before(a, b) ==> !before(b, a)
    &&& forall|a: T, b: T, c: T| #[trigger]
        before(a, c) && !(#[trigger] before(a, b)) ==> before(b, c)
}

/// Whether no item of a row comes before one that stands before it.
pub open spec fn is_sorted<T>(s: Seq<T>, before: spec_fn(T, T) -> bool) -> bool {
    forall|i: int, j: int| 0 <= i < j < s.len() ==> !before(#[trigger] s[j], #[trigger] s[i])
}

/// The place for an item in a sorted row: after the items that it does not come
/// before.
pub proof fn lemma_with_item_is_insertion<T>(
    s: Seq<T>,
    item: T,
    before: spec_fn(T, T) -> bool,
    place: int,
)
    requires
        0 <= place <= s.len(),
        forall|i: int| place <= i < s.len() ==> before(item, #[trigger] s[i]),
        place > 0 ==> !before(item, s[place - 1]),
    ensures
        with_item(s, item, before) == s.insert(place, item),
    decreases s.len(),
{
    if place < s.len() {
        let t = s.drop_last();
        assert(before(item, s[s.len() - 1]));
        assert forall|i: int| place <= i < t.len() implies before(item, #[trigger] t[i]) by {
            assert(t[i] == s[i]);
        }
        lemma_with_item_is_insertion(t, item, before, place);
        assert(with_item(s, item, before) == s.insert(place, item));
    } else {
        assert(s.insert(place, item) == s.push(item));
    }
}

proof fn lemma_with_item<T>(s: Seq<T>, item: T, before: spec_fn(T, T) -> bool)
    requires
        can_sort(before),
        is_sorted(s, before),
    ensures
        is_sorted(with_item(s, item, before), before),
        with_item(s, item, before).to_multiset() == s.to_multiset().insert(item),
        with_item(s, item, before).len() == s.len() + 1,
        forall|i: int|
            0 <= i < s.len() + 1 ==> (#[trigger] with_item(s, item, before)[i]) == item
                || s.contains(with_item(s, item, before)[i]),
    decreases s.len(),
{
    let r = with_item(s, item, before);
    broadcast use vstd::seq_lib::group_to_multiset_ensures;

    if s.len() > 0 && before(item, s.last()) {
        let t = s.drop_last();
        assert forall|i: int, j: int| 0 <= i < j < t.len() implies !before(
            #[trigger] t[j],
            #[trigger] t[i],
        ) by {
            assert(t[i] == s[i] && t[j] == s[j]);
        }
        lemma_with_item(t, item, before);
        let q = with_item(t, item, before);
        assert(r == q.push(s.last()));
        assert forall|i: int, j: int| 0 <= i < j < r.len() implies !before(
            #[trigger] r[j],
            #[trigger] r[i],
        ) by {
            if j == q.len() {
                assert(r[i] == q[i]);
                if q[i] == item {
                    assert(!before(s.last(), item));
                } else {
                    let k = choose|k: int| 0 <= k < t.len() && t[k] == q[i];
                    assert(s[k] == q[i]);
                    assert(s[s.len() - 1] == s.last());
                }
            } else {
                assert(r[i] == q[i] && r[j] == q[j]);
            }
        }
        assert(s == t.push(s.last()));
        assert(r.to_multiset() =~= s.to_multiset().insert(item));
        assert forall|i: int| 0 <= i < s.len() + 1 implies (#[trigger] r[i]) == item || s.contains(
            r[i],
        ) by {
            if i < q.len() {
                assert(r[i] == q[i]);
                if q[i] != item {
                    let k = choose|k: int| 0 <= k < t.len() && t[k] == q[i];
                    assert(s[k] == r[i]);
                }
            } else {
                assert(s[s.len() - 1] == r[i]);
            }
        }
    } else {
        assert forall|i: int, j: int| 0 <= i < j < r.len() implies !before(
            #[trigger] r[j],
            #[trigger] r[i],
        ) by {
            if j == s.len() {
                assert(r[i] == s[i]);
                if i < s.len() - 1 {
                    assert(!before(s[s.len() - 1], s[i]));
                    if before(item, s[i]) {
                        assert(!before(item, s[s.len() - 1]));
                        assert(before(s[s.len() - 1], s[i]));
                    }
                }
            } else {
                assert(r[i] == s[i] && r[j] == s[j]);
            }
        }
        assert forall|i: int| 0 <= i < s.len() + 1 implies (#[trigger] r[i]) == item || s.contains(
            r[i],
        ) by {
            if i < s.len() {
                assert(s[i] == r[i]);
            }
        }
    }
}

/// Sorting leaves the same items, each as often as before, and puts them in
/// order.
pub proof fn sorting_orders_the_same_items<T>(s: Seq<T>, before: spec_fn(T, T) -> bool)
    requires
        can_sort(before),
    ensures
        is_sorted(stable_sorted(s, before), before),
        stable_sorted(s, before).to_multiset() == s.to_multiset(),
        stable_sorted(s, before).len() == s.len(),
    decreases s.len(),
{
    broadcast use vstd::seq_lib::group_to_multiset_ensures;

    if s.len() > 0 {
        let t = s.drop_last();
        sorting_orders_the_same_items(t, before);
        lemma_with_item(stable_sorted(t, before), s.last(), before);
        assert(s == t.push(s.last()));
        assert(stable_sorted(s, before).to_multiset() =~= s.to_multiset());
    }
}

/// The items that stand on a level with a given one: neither comes before the
/// other.
pub open spec fn on_a_level<T>(item: T, before: spec_fn(T, T) -> bool) -> spec_fn(T) -> bool {
    |other: T| !before(item, other) && !before(other, item)
}

/// What a filter keeps of a row with one more item.
pub proof fn lemma_filter_push<T>(s: Seq<T>, item: T, test: spec_fn(T) -> bool)
    ensures
        s.push(item).filter(test) == if test(item) {
            s.filter(test).push(item)
        } else {
            s.filter(test)
        },
{
    reveal(Seq::filter);
    assert(s.push(item).drop_last() == s);
}

proof fn lemma_with_item_keeps_levels<T>(
    s: Seq<T>,
    item: T,
    before: spec_fn(T, T) -> bool,
    level: T,
)
    requires
        can_sort(before),
    ensures
        with_item(s, item, before).filter(on_a_level(level, before)) == s.push(item).filter(
            on_a_level(level, before),
        ),
    decreases s.len(),
{
    let test = on_a_level(level, before);
    if s.len() > 0 && before(item, s.last()) {
        let t = s.drop_last();
        let q = with_item(t, item, before);
        lemma_with_item_keeps_levels(t, item, before, level);
        assert(s == t.push(s.last()));
        lemma_filter_push(q, s.last(), test);
        lemma_filter_push(t, item, test);
        lemma_filter_push(t, s.last(), test);
        lemma_filter_push(s, item, test);
        if test(item) {
            assert(!before(level, item));
            assert(!before(item, level));
            assert(before(level, s.last()));
            assert(!test(s.last()));
        }
    }
}

/// Sorting keeps the order of items that stand on a level.
pub proof fn sorting_keeps_the_order_of_equals<T>(
    s: Seq<T>,
    before: spec_fn(T, T) -> bool,
    level: T,
)
    requires
        can_sort(before),
    ensures
        stable_sorted(s, before).filter(on_a_level(level, before)) == s.filter(
            on_a_level(level, before),
        ),
    decreases s.len(),
{
    if s.len() > 0 {
        let t = s.drop_last();
        let r = stable_sorted(t, before);
        sorting_keeps_the_order_of_equals(t, before, level);
        lemma_with_item_keeps_levels(r, s.last(), before, level);
        lemma_filter_push(r, s.last(), on_a_level(level, before));
        lemma_filter_push(t, s.last(), on_a_level(level, before));
        assert(s == t.push(s.last()));
    }
}

/// A sorted row holds the same items.
pub proof fn sorted_items_were_there<T>(s: Seq<T>, before: spec_fn(T, T) -> bool)
    requires
        can_sort(before),
    ensures
        stable_sorted(s, before).len() == s.len(),
        forall|item: T| #[trigger] stable_sorted(s, before).contains(item) <==> s.contains(item),
{
    broadcast use vstd::seq_lib::group_to_multiset_ensures;

    let sorted = stable_sorted(s, before);
    sorting_orders_the_same_items(s, before);
    assert forall|item: T| #[trigger] sorted.contains(item) <==> s.contains(item) by {
        assert(sorted.contains(item) <==> sorted.to_multiset().count(item) > 0);
        assert(s.contains(item) <==> s.to_multiset().count(item) > 0);
    }
}

/// What a filter keeps of a sorted row is sorted.
pub proof fn filtering_keeps_order<T>(
    s: Seq<T>,
    test: spec_fn(T) -> bool,
    before: spec_fn(T, T) -> bool,
)
    requires
        is_sorted(s, before),
    ensures
        is_sorted(s.filter(test), before),
    decreases s.len(),
{
    reveal(Seq::filter);
    if s.len() > 0 {
        let t = s.drop_last();
        assert forall|i: int, j: int| 0 <= i < j < t.len() implies !before(
            #[trigger] t[j],
            #[trigger] t[i],
        ) by {
            assert(t[i] == s[i] && t[j] == s[j]);
        }
        filtering_keeps_order(t, test, before);
        filtered_items_were_there(t, test);
        let kept = t.filter(test);
        let r = s.filter(test);
        assert forall|i: int, j: int| 0 <= i < j < r.len() implies !before(
            #[trigger] r[j],
            #[trigger] r[i],
        ) by {
            assert(r[i] == kept[i]);
            if j < kept.len() {
                assert(r[j] == kept[j]);
            } else {
                assert(t.contains(kept[i]));
                let k = choose|k: int| 0 <= k < t.len() && t[k] == kept[i];
                assert(s[k] == r[i]);
                assert(s[s.len() - 1] == r[j]);
            }
        }
    }
}

/// The first items of the groups of a sorted row are sorted, and the last item
/// comes before none of them.
pub proof fn firsts_keep_order<T>(
    s: Seq<T>,
    grouped: spec_fn(T, T) -> bool,
    before: spec_fn(T, T) -> bool,
)
    requires
        is_sorted(s, before),
    ensures
        is_sorted(firsts(s, grouped), before),
        s.len() > 0 ==> forall|k: int|
            0 <= k < firsts(s.drop_last(), grouped).len() ==> !before(
                s.last(),
                #[trigger] firsts(s.drop_last(), grouped)[k],
            ),
    decreases s.len(),
{
    if s.len() > 0 {
        let t = s.drop_last();
        let was = firsts(t, grouped);
        let is = firsts(s, grouped);
        assert forall|i: int, j: int| 0 <= i < j < t.len() implies !before(
            #[trigger] t[j],
            #[trigger] t[i],
        ) by {
            assert(t[i] == s[i] && t[j] == s[j]);
        }
        firsts_keep_order(t, grouped, before);
        firsts_were_there(t, grouped);
        assert forall|k: int| 0 <= k < was.len() implies !before(s.last(), #[trigger] was[k]) by {
            assert(t.contains(was[k]));
            let j = choose|j: int| 0 <= j < t.len() && t[j] == was[k];
            assert(s[j] == was[k]);
            assert(!before(s[s.len() - 1], s[j]));
        }
        assert forall|i: int, j: int| 0 <= i < j < is.len() implies !before(
            #[trigger] is[j],
            #[trigger] is[i],
        ) by {
            assert(is[i] == was[i]);
            if j < was.len() {
                assert(is[j] == was[j]);
            } else {
                assert(is[j] == s.last());
            }
        }
    }
}

/// In a sorted row no item comes before the first of its group.
pub proof fn firsts_come_first<T>(
    s: Seq<T>,
    grouped: spec_fn(T, T) -> bool,
    before: spec_fn(T, T) -> bool,
    k: int,
    i: int,
)
    requires
        is_grouping(grouped),
        can_sort(before),
        is_sorted(s, before),
        0 <= k < firsts(s, grouped).len(),
        0 <= i < s.len(),
        grouped(firsts(s, grouped)[k], s[i]),
    ensures
        !before(s[i], firsts(s, grouped)[k]),
    decreases s.len(),
{
    let t = s.drop_last();
    let was = firsts(t, grouped);
    let is = firsts(s, grouped);
    assert forall|x: int, y: int| 0 <= x < y < t.len() implies !before(
        #[trigger] t[y],
        #[trigger] t[x],
    ) by {
        assert(t[x] == s[x] && t[y] == s[y]);
    }
    firsts_keep_order(s, grouped, before);
    if k < was.len() {
        assert(is[k] == was[k]);
        if i < t.len() {
            firsts_come_first(t, grouped, before, k, i);
        } else {
            assert(s[i] == s.last());
        }
    } else if i < t.len() {
        firsts_stand_for_their_groups(t, grouped);
        assert(t[i] == s[i]);
        let j = choose|j: int| 0 <= j < was.len() && grouped(#[trigger] was[j], t[i]);
        assert(grouped(s[i], is[k]));
        assert(grouped(was[j], is[k]));
        assert(is[k] == s.last());
    } else {
        assert(s[i] == is[k]);
    }
}

/// What the items of a row add up to.
pub open spec fn sum_of<T>(s: Seq<T>, amount: spec_fn(T) -> int) -> int
    decreases s.len(),
{
    if s.len() == 0 {
        0
    } else {
        sum_of(s.drop_last(), amount) + amount(s.last())
    }
}

/// Sorting does not change what items add up to.
pub proof fn sorting_keeps_sums<T>(
    s: Seq<T>,
    before: spec_fn(T, T) -> bool,
    amount: spec_fn(T) -> int,
)
    ensures
        sum_of(stable_sorted(s, before), amount) == sum_of(s, amount),
    decreases s.len(),
{
    if s.len() > 0 {
        sorting_keeps_sums(s.drop_last(), before, amount);
        lemma_sum_with_item(stable_sorted(s.drop_last(), before), s.last(), before, amount);
    }
}

proof fn lemma_sum_with_item<T>(
    s: Seq<T>,
    item: T,
    before: spec_fn(T, T) -> bool,
    amount: spec_fn(T) -> int,
)
    ensures
        sum_of(with_item(s, item, before), amount) == sum_of(s, amount) + amount(item),
    decreases s.len(),
{
    if s.len() > 0 && before(item, s.last()) {
        let inner = with_item(s.drop_last(), item, before);
        lemma_sum_with_item(s.drop_last(), item, before, amount);
        assert(inner.push(s.last()).drop_last() == inner);
    } else {
        assert(s.push(item).drop_last() == s);
    }
}

/// What the items that pass a test add up to, as a sum over all items.
pub proof fn sum_of_passing<T>(
    s: Seq<T>,
    test: spec_fn(T) -> bool,
    amount: spec_fn(T) -> int,
    amount_if: spec_fn(T) -> int,
)
    requires
        forall|item: T| #[trigger]
            amount_if(item) == if test(item) {
                amount(item)
            } else {
                0
            },
    ensures
        sum_of(s.filter(test), amount) == sum_of(s, amount_if),
    decreases s.len(),
{
    reveal(Seq::filter);
    if s.len() > 0 {
        let t = s.drop_last();
        sum_of_passing(t, test, amount, amount_if);
        assert(amount_if(s.last()) == if test(s.last()) {
            amount(s.last())
        } else {
            0
        });
        assert(t.filter(test).push(s.last()).drop_last() == t.filter(test));
    }
}

/// Whether the items of a row can be told apart by a mark.
pub open spec fn marks_differ<T, K>(s: Seq<T>, mark: spec_fn(T) -> K) -> bool {
    forall|i: int, j: int|
        0 <= i < j < s.len() ==> mark(#[trigger] s[i]) != mark(#[trigger] s[j])
}

/// The place of an item that is added to a row: it comes before all that follow.
proof fn lemma_with_item_place<T>(s: Seq<T>, item: T, before: spec_fn(T, T) -> bool) -> (place: int)
    ensures
        0 <= place <= s.len(),
        with_item(s, item, before) == s.insert(place, item),
        forall|i: int| place <= i < s.len() ==> before(item, #[trigger] s[i]),
    decreases s.len(),
{
    if s.len() > 0 && before(item, s.last()) {
        let t = s.drop_last();
        let place = lemma_with_item_place(t, item, before);
        assert(with_item(s, item, before) == s.insert(place, item));
        assert forall|i: int| place <= i < s.len() implies before(item, #[trigger] s[i]) by {
            if i < t.len() {
                assert(t[i] == s[i]);
            }
        }
        place
    } else {
        assert(s.insert(s.len() as int, item) == s.push(item));
        s.len() as int
    }
}

/// Items that stand on a level come out of sorting in the order in which they went
/// in.
pub proof fn sorting_is_stable<T>(
    s: Seq<T>,
    before: spec_fn(T, T) -> bool,
    i: int,
    j: int,
) -> (r: (int, int))
    requires
        can_sort(before),
        0 <= i < j < stable_sorted(s, before).len(),
        !before(stable_sorted(s, before)[i], stable_sorted(s, before)[j]),
    ensures
        0 <= r.0 < r.1 < s.len(),
        s[r.0] == stable_sorted(s, before)[i],
        s[r.1] == stable_sorted(s, before)[j],
    decreases s.len(),
{
    let t = s.drop_last();
    let item = s.last();
    let was = stable_sorted(t, before);
    let is = stable_sorted(s, before);
    let place = lemma_with_item_place(was, item, before);
    sorted_items_were_there(t, before);
    if j == place {
        assert(is[i] == was[i]);
        assert(was.contains(was[i]));
        let p = choose|p: int| 0 <= p < t.len() && t[p] == was[i];
        assert(s[p] == t[p]);
        (p, s.len() - 1)
    } else if i == place {
        assert(is[j] == was[j - 1]);
        assert(before(item, was[j - 1]));
        (0, 0)
    } else {
        let a = if i < place {
            i
        } else {
            i - 1
        };
        let b = if j < place {
            j
        } else {
            j - 1
        };
        assert(is[i] == was[a] && is[j] == was[b]);
        let r = sorting_is_stable(t, before, a, b);
        assert(s[r.0] == t[r.0] && s[r.1] == t[r.1]);
        r
    }
}

/// A filter leaves items that can be told apart so.
pub proof fn filtering_keeps_marks_apart<T, K>(
    s: Seq<T>,
    test: spec_fn(T) -> bool,
    mark: spec_fn(T) -> K,
)
    requires
        marks_differ(s, mark),
    ensures
        marks_differ(s.filter(test), mark),
    decreases s.len(),
{
    reveal(Seq::filter);
    if s.len() > 0 {
        let t = s.drop_last();
        let kept = t.filter(test);
        let r = s.filter(test);
        assert forall|i: int, j: int| 0 <= i < j < t.len() implies mark(#[trigger] t[i]) != mark(
            #[trigger] t[j],
        ) by {
            assert(t[i] == s[i] && t[j] == s[j]);
        }
        filtering_keeps_marks_apart(t, test, mark);
        filtered_items_were_there(t, test);
        assert forall|i: int, j: int| 0 <= i < j < r.len() implies mark(#[trigger] r[i]) != mark(
            #[trigger] r[j],
        ) by {
            assert(r[i] == kept[i]);
            if j < kept.len() {
                assert(r[j] == kept[j]);
            } else {
                assert(t.contains(kept[i]));
                let k = choose|k: int| 0 <= k < t.len() && t[k] == kept[i];
                assert(mark(s[k]) != mark(s[s.len() - 1]));
            }
        }
    }
}

/// Sorting leaves items that can be told apart so.
pub proof fn sorting_keeps_marks_apart<T, K>(
    s: Seq<T>,
    before: spec_fn(T, T) -> bool,
    mark: spec_fn(T) -> K,
)
    requires
        can_sort(before),
        marks_differ(s, mark),
    ensures
        marks_differ(stable_sorted(s, before), mark),
    decreases s.len(),
{
    if s.len() > 0 {
        let t = s.drop_last();
        let sorted = stable_sorted(t, before);
        assert forall|i: int, j: int| 0 <= i < j < t.len() implies mark(#[trigger] t[i]) != mark(
            #[trigger] t[j],
        ) by {
            assert(t[i] == s[i] && t[j] == s[j]);
        }
        sorting_keeps_marks_apart(t, before, mark);
        sorted_items_were_there(t, before);
        assert forall|i: int| 0 <= i < sorted.len() implies mark(#[trigger] sorted[i]) != mark(
            s.last(),
        ) by {
            assert(sorted.contains(sorted[i]));
            assert(t.contains(sorted[i]));
            let k = choose|k: int| 0 <= k < t.len() && t[k] == sorted[i];
            assert(mark(s[k]) != mark(s[s.len() - 1]));
        }
        lemma_with_item_apart(sorted, s.last(), before, mark);
    }
}

proof fn lemma_with_item_apart<T, K>(
    s: Seq<T>,
    item: T,
    before: spec_fn(T, T) -> bool,
    mark: spec_fn(T) -> K,
)
    requires
        marks_differ(s, mark),
        forall|i: int| 0 <= i < s.len() ==> mark(#[trigger] s[i]) != mark(item),
    ensures
        marks_differ(with_item(s, item, before), mark),
        forall|i: int|
            0 <= i < with_item(s, item, before).len() ==> (#[trigger] with_item(
                s,
                item,
                before,
            )[i]) == item || s.contains(with_item(s, item, before)[i]),
    decreases s.len(),
{
    let r = with_item(s, item, before);
    if s.len() > 0 && before(item, s.last()) {
        let t = s.drop_last();
        let inner = with_item(t, item, before);
        assert forall|i: int, j: int| 0 <= i < j < t.len() implies mark(#[trigger] t[i]) != mark(
            #[trigger] t[j],
        ) by {
            assert(t[i] == s[i] && t[j] == s[j]);
        }
        assert forall|i: int| 0 <= i < t.len() implies mark(#[trigger] t[i]) != mark(item) by {
            assert(t[i] == s[i]);
        }
        lemma_with_item_apart(t, item, before, mark);
        let last = s[s.len() - 1];
        assert forall|i: int| 0 <= i < inner.len() implies mark(#[trigger] inner[i]) != mark(last)
            && (inner[i] == item || s.contains(inner[i])) by {
            if inner[i] != item {
                let k = choose|k: int| 0 <= k < t.len() && t[k] == inner[i];
                assert(s[k] == inner[i]);
            }
        }
        assert forall|i: int, j: int| 0 <= i < j < r.len() implies mark(#[trigger] r[i]) != mark(
            #[trigger] r[j],
        ) by {
            assert(r[i] == inner[i]);
            if j < inner.len() {
                assert(r[j] == inner[j]);
            }
        }
        assert forall|i: int| 0 <= i < r.len() implies (#[trigger] r[i]) == item || s.contains(
            r[i],
        ) by {
            if i < inner.len() {
                assert(r[i] == inner[i]);
            } else {
                assert(r[i] == last);
            }
        }
    } else {
        assert forall|i: int, j: int| 0 <= i < j < r.len() implies mark(#[trigger] r[i]) != mark(
            #[trigger] r[j],
        ) by {
            assert(r[i] == s[i]);
            if j < s.len() {
                assert(r[j] == s[j]);
            }
        }
        assert forall|i: int| 0 <= i < r.len() implies (#[trigger] r[i]) == item || s.contains(
            r[i],
        ) by {
            if i < s.len() {
                assert(r[i] == s[i]);
            }
        }
    }
}

/// Tests that agree on the items of a row keep the same of it.
pub proof fn filters_agree<T>(s: Seq<T>, a: spec_fn(T) -> bool, b: spec_fn(T) -> bool)
    requires
        forall|i: int| 0 <= i < s.len() ==> a(#[trigger] s[i]) == b(s[i]),
    ensures
        s.filter(a) == s.filter(b),
        position(s, a) == position(s, b),
    decreases s.len(),
{
    reveal(Seq::filter);
    if s.len() > 0 {
        let t = s.drop_last();
        assert forall|i: int| 0 <= i < t.len() implies a(#[trigger] t[i]) == b(t[i]) by {
            assert(t[i] == s[i]);
        }
        filters_agree(t, a, b);
        assert(s.last() == s[s.len() - 1]);
    }
}

/// Sums of rows that differ in one item differ by what the item differs.
pub proof fn lemma_sum_update<T>(s: Seq<T>, i: int, item: T, amount: spec_fn(T) -> int)
    requires
        0 <= i < s.len(),
    ensures
        sum_of(s.update(i, item), amount) == sum_of(s, amount) - amount(s[i]) + amount(item),
    decreases s.len(),
{
    let t = s.drop_last();
    if i == s.len() - 1 {
        assert(s.update(i, item).drop_last() == t);
    } else {
        lemma_sum_update(t, i, item, amount);
        assert(s.update(i, item).drop_last() == t.update(i, item));
    }
}

/// Sorting goes along with a change of the items that keeps their order.
pub proof fn sorting_follows_changes<T, V>(
    s: Seq<T>,
    change: spec_fn(T) -> V,
    before: spec_fn(T, T) -> bool,
    changed_before: spec_fn(V, V) -> bool,
)
    requires
        forall|a: T, b: T| #[trigger] before(a, b) == changed_before(change(a), change(b)),
    ensures
        stable_sorted(s.map_values(change), changed_before) == stable_sorted(
            s,
            before,
        ).map_values(change),
    decreases s.len(),
{
    if s.len() > 0 {
        let t = s.drop_last();
        sorting_follows_changes(t, change, before, changed_before);
        assert(s.map_values(change).drop_last() == t.map_values(change));
        lemma_with_item_follows(stable_sorted(t, before), s.last(), change, before, changed_before);
    } else {
        assert(s.map_values(change) == Seq::<V>::empty());
        assert(stable_sorted(s, before).map_values(change) == Seq::<V>::empty());
    }
}

proof fn lemma_with_item_follows<T, V>(
    s: Seq<T>,
    item: T,
    change: spec_fn(T) -> V,
    before: spec_fn(T, T) -> bool,
    changed_before: spec_fn(V, V) -> bool,
)
    requires
        forall|a: T, b: T| #[trigger] before(a, b) == changed_before(change(a), change(b)),
    ensures
        with_item(s.map_values(change), change(item), changed_before) == with_item(
            s,
            item,
            before,
        ).map_values(change),
    decreases s.len(),
{
    if s.len() > 0 && before(item, s.last()) {
        lemma_with_item_follows(s.drop_last(), item, change, before, changed_before);
        assert(s.map_values(change).drop_last() == s.drop_last().map_values(change));
    }
    assert(with_item(s.map_values(change), change(item), changed_before) == with_item(
        s,
        item,
        before,
    ).map_values(change));
}

/// Filtering goes along with a change of the items that keeps what passes.
pub proof fn filtering_follows_changes<T, V>(
    s: Seq<T>,
    change: spec_fn(T) -> V,
    test: spec_fn(T) -> bool,
    changed_test: spec_fn(V) -> bool,
)
    requires
        forall|a: T| #[trigger] test(a) == changed_test(change(a)),
    ensures
        s.map_values(change).filter(changed_test) == s.filter(test).map_values(change),
    decreases s.len(),
{
    reveal(Seq::filter);
    if s.len() > 0 {
        let t = s.drop_last();
        filtering_follows_changes(t, change, test, changed_test);
        assert(s.map_values(change).drop_last() == t.map_values(change));
        assert(s.map_values(change).last() == change(s.last()));
    }
    assert(s.map_values(change).filter(changed_test) == s.filter(test).map_values(change));
}

/// The first items of groups go along with a change of the items that keeps the
/// groups.
pub proof fn firsts_follow_changes<T, V>(
    s: Seq<T>,
    change: spec_fn(T) -> V,
    grouped: spec_fn(T, T) -> bool,
    changed_grouped: spec_fn(V, V) -> bool,
)
    requires
        forall|a: T, b: T| #[trigger] grouped(a, b) == changed_grouped(change(a), change(b)),
    ensures
        firsts(s.map_values(change), changed_grouped) == firsts(s, grouped).map_values(change),
    decreases s.len(),
{
    let changed = s.map_values(change);
    if s.len() > 0 {
        let t = s.drop_last();
        let was = firsts(t, grouped);
        let changed_was = firsts(t.map_values(change), changed_grouped);
        firsts_follow_changes(t, change, grouped, changed_grouped);
        assert(changed.drop_last() == t.map_values(change));
        assert(changed.last() == change(s.last()));
        assert forall|i: int| 0 <= i < was.len() implies grouped(#[trigger] was[i], s.last())
            == changed_grouped(changed_was[i], changed.last()) by {
            assert(changed_was[i] == change(was[i]));
        }
        if exists|i: int| 0 <= i < was.len() && grouped(#[trigger] was[i], s.last()) {
            let i = choose|i: int| 0 <= i < was.len() && grouped(#[trigger] was[i], s.last());
            assert(changed_grouped(changed_was[i], changed.last()));
        } else {
            assert forall|i: int| 0 <= i < changed_was.len() implies !changed_grouped(
                #[trigger] changed_was[i],
                changed.last(),
            ) by {
                assert(!grouped(was[i], s.last()));
            }
            assert(was.push(s.last()).map_values(change) == was.map_values(change).push(
                change(s.last()),
            ));
        }
    } else {
        assert(firsts(changed, changed_grouped) == firsts(s, grouped).map_values(change));
    }
}

/// A position stays under a change of the items that keeps what passes.
pub proof fn positions_follow_changes<T, V>(
    s: Seq<T>,
    change: spec_fn(T) -> V,
    test: spec_fn(T) -> bool,
    changed_test: spec_fn(V) -> bool,
)
    requires
        forall|a: T| #[trigger] test(a) == changed_test(change(a)),
    ensures
        position(s.map_values(change), changed_test) == position(s, test),
    decreases s.len(),
{
    if s.len() > 0 {
        let t = s.drop_last();
        positions_follow_changes(t, change, test, changed_test);
        assert(s.map_values(change).drop_last() == t.map_values(change));
        assert(s.map_values(change).last() == change(s.last()));
    }
}

/// Sorts items stably by a relation.
pub(crate) fn sort_by<T: View, F: Fn(&T, &T) -> bool>(
    items: Vec<T>,
    comes_before: F,
    Ghost(before): Ghost<spec_fn(T::V, T::V) -> bool>,
) -> (result: Vec<T>)
    requires
        can_sort(before),
        forall|a: &T, b: &T| #[trigger] call_requires(comes_before, (a, b)),
        forall|a: &T, b: &T, answer: bool| #[trigger]
            call_ensures(comes_before, (a, b), answer) ==> answer == before(a@, b@),
    ensures
        models(result@) == stable_sorted(models(items@), before),
        result@.len() == items@.len(),
{
    let ghost all = models(items@);
    let ghost rows = items@;
    let mut sorted: Vec<T> = Vec::new();
    assert(models(sorted@) == stable_sorted(all.take(0), before));
    for item in it: items
        invariant
            it.seq() == rows,
            all == models(rows),
            can_sort(before),
            forall|a: &T, b: &T| #[trigger] call_requires(comes_before, (a, b)),
            forall|a: &T, b: &T, answer: bool| #[trigger]
                call_ensures(comes_before, (a, b), answer) ==> answer == before(a@, b@),
            models(sorted@) == stable_sorted(all.take(it.index()), before),
    {
        let ghost n = it.index();
        let ghost so_far = models(sorted@);
        proof {
            sorting_orders_the_same_items(all.take(n), before);
            assert(all.take(n + 1).drop_last() == all.take(n));
            assert(all.take(n + 1).last() == all[n]);
            assert(item@ == all[n]);
        }
        let mut low: usize = 0;
        let mut high: usize = sorted.len();
        while low < high
            invariant
                low <= high <= sorted.len(),
                can_sort(before),
                so_far == models(sorted@),
                is_sorted(so_far, before),
                forall|a: &T, b: &T| #[trigger] call_requires(comes_before, (a, b)),
                forall|a: &T, b: &T, answer: bool| #[trigger]
                    call_ensures(comes_before, (a, b), answer) ==> answer == before(a@, b@),
                forall|i: int| high <= i < so_far.len() ==> before(item@, #[trigger] so_far[i]),
                low > 0 ==> !before(item@, so_far[low - 1]),
            decreases high - low,
        {
            let middle: usize = low + (high - low) / 2;
            if comes_before(&item, &sorted[middle]) {
                proof {
                    let m = middle as int;
                    assert(before(item@, so_far[m]));
                    assert forall|i: int| m <= i < so_far.len() implies before(
                        item@,
                        #[trigger] so_far[i],
                    ) by {
                        if m < i && !before(item@, so_far[i]) {
                            assert(before(so_far[i], so_far[m]));
                        }
                    }
                }
                high = middle;
            } else {
                assert(!before(item@, so_far[middle as int]));
                low = middle + 1;
            }
        }
        proof {
            lemma_with_item_is_insertion(so_far, item@, before, low as int);
        }
        let ghost added = item;
        let ghost rows_so_far = sorted@;
        sorted.insert(low, item);
        proof {
            assert(models(rows_so_far.insert(low as int, added)) == so_far.insert(
                low as int,
                added@,
            ));
        }
    }
    proof {
        assert(all.take(all.len() as int) == all);
        sorting_orders_the_same_items(all, before);
        assert(models(sorted@).len() == sorted@.len());
    }
    sorted
}

} // verus!
