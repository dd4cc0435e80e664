//! Sequences.

use vstd::prelude::*;
use vstd::seq_lib::lemma_multiset_commutative;

verus! {

/// The views of a sequence of values, in order.
pub open spec fn views<T: View>(values: Seq<T>) -> Seq<T::V> {
    values.map_values(|value: T| value@)
}

/// What the last item of a sequence adds.
pub proof fn lemma_filter_map_last<A, B>(items: Seq<A>, f: spec_fn(A) -> Option<B>)
    requires
        items.len() > 0,
    ensures
        items.filter_map(f) == match f(items.last()) {
            Some(b) => items.drop_last().filter_map(f).push(b),
            None => items.drop_last().filter_map(f),
        },
{
    let i = items.len() - 1;
    items.lemma_filter_map_take_succ(f, i);
    assert(items.take(i + 1) =~= items);
    assert(items.take(i) =~= items.drop_last());
    assert(items.filter_map(f) =~= match f(items.last()) {
        Some(b) => items.drop_last().filter_map(f).push(b),
        None => items.drop_last().filter_map(f),
    });
}

/// Where nothing in a sequence is kept, nothing comes out.
pub proof fn lemma_filter_map_none<A, B>(items: Seq<A>, f: spec_fn(A) -> Option<B>)
    requires
        forall|i: int| 0 <= i < items.len() ==> f(#[trigger] items[i]) is None,
    ensures
        items.filter_map(f).len() == 0,
    decreases items.len(),
{
    if items.len() > 0 {
        let front = items.drop_last();
        assert forall|k: int| 0 <= k < front.len() implies f(#[trigger] front[k]) is None by {
            assert(front[k] == items[k]);
        }
        lemma_filter_map_none(front, f);
        lemma_filter_map_last(items, f);
        assert(f(items[items.len() - 1]) is None);
    }
}

/// What comes of two sequences, one behind the other.
pub proof fn lemma_filter_map_add<A, B>(first: Seq<A>, second: Seq<A>, f: spec_fn(A) -> Option<B>)
    ensures
        (first + second).filter_map(f) == first.filter_map(f) + second.filter_map(f),
    decreases second.len(),
{
    if second.len() == 0 {
        assert(first + second =~= first);
        assert(first.filter_map(f) + second.filter_map(f) =~= first.filter_map(f));
    } else {
        lemma_filter_map_add(first, second.drop_last(), f);
        lemma_filter_map_last(second, f);
        lemma_filter_map_last(first + second, f);
        assert((first + second).drop_last() =~= first + second.drop_last());
        assert((first + second).last() == second.last());
        assert((first + second).filter_map(f) =~= first.filter_map(f) + second.filter_map(f));
    }
}

/// What comes of many sequences, one behind the other.
pub proof fn lemma_filter_map_flatten<A, B>(lists: Seq<Seq<A>>, f: spec_fn(A) -> Option<B>)
    ensures
        lists.flatten().filter_map(f) == lists.map_values(
            |list: Seq<A>| list.filter_map(f),
        ).flatten(),
    decreases lists.len(),
{
    let each = |list: Seq<A>| list.filter_map(f);
    if lists.len() == 0 {
        assert(lists.flatten().filter_map(f) =~= lists.map_values(each).flatten());
    } else {
        lemma_filter_map_add(lists.first(), lists.drop_first().flatten(), f);
        lemma_filter_map_flatten(lists.drop_first(), f);
        assert(lists.map_values(each).drop_first() =~= lists.drop_first().map_values(each));
        assert(lists.map_values(each).first() == each(lists.first()));
    }
}

/// What comes out comes of the items, and none of those is passed over.
pub proof fn lemma_filter_map_contains<A, B>(items: Seq<A>, f: spec_fn(A) -> Option<B>, b: B)
    ensures
        items.filter_map(f).contains(b) <==> exists|i: int|
            0 <= i < items.len() && #[trigger] f(items[i]) == Some(b),
    decreases items.len(),
{
    if items.len() > 0 {
        let front = items.drop_last();
        let seen = front.filter_map(f);
        let all = items.filter_map(f);
        lemma_filter_map_last(items, f);
        lemma_filter_map_contains(front, f, b);
        if all.contains(b) {
            let k = choose|k: int| 0 <= k < all.len() && all[k] == b;
            if k < seen.len() {
                assert(seen[k] == b);
                let i = choose|i: int| 0 <= i < front.len() && f(front[i]) == Some(b);
                assert(items[i] == front[i] && f(items[i]) == Some(b));
            } else {
                assert(f(items[items.len() - 1]) == Some(b));
            }
        }
        if exists|i: int| 0 <= i < items.len() && #[trigger] f(items[i]) == Some(b) {
            let i = choose|i: int| 0 <= i < items.len() && #[trigger] f(items[i]) == Some(b);
            if i < front.len() {
                assert(front[i] == items[i] && f(front[i]) == Some(b));
                let k = choose|k: int| 0 <= k < seen.len() && seen[k] == b;
                assert(all[k] == b);
            } else {
                assert(all.last() == b);
            }
        }
    }
}

/// The same items in another order give the same in another order.
pub proof fn lemma_filter_map_permuted<A, B>(
    items: Seq<A>,
    others: Seq<A>,
    f: spec_fn(A) -> Option<B>,
)
    requires
        items.to_multiset() == others.to_multiset(),
    ensures
        items.filter_map(f).to_multiset() == others.filter_map(f).to_multiset(),
    decreases items.len(),
{
    broadcast use vstd::seq_lib::group_to_multiset_ensures;

    assert(items.to_multiset().len() == items.len());
    assert(others.to_multiset().len() == others.len());
    if items.len() == 0 {
        assert(items =~= others);
    } else {
        let front = items.drop_last();
        let x = items.last();
        assert(items =~= front.push(x));
        assert(items.contains(x));
        assert(items.to_multiset().count(x) > 0);
        assert(others.contains(x));
        let j = choose|j: int| 0 <= j < others.len() && others[j] == x;
        let before = others.take(j);
        let after = others.skip(j + 1);
        assert(others =~= before.push(x) + after);
        assert(others.remove(j) =~= before + after);
        assert(front.to_multiset() =~= (before + after).to_multiset()) by {
            assert(front.to_multiset() =~= items.to_multiset().remove(x));
            assert((before + after).to_multiset() =~= others.to_multiset().remove(x));
        }
        lemma_filter_map_permuted(front, before + after, f);
        lemma_filter_map_last(items, f);
        lemma_filter_map_add(before, after, f);
        lemma_filter_map_add(before.push(x), after, f);
        lemma_filter_map_last(before.push(x), f);
        assert(before.push(x).drop_last() =~= before);
        lemma_multiset_commutative(before.filter_map(f), after.filter_map(f));
        lemma_multiset_commutative(before.push(x).filter_map(f), after.filter_map(f));
        assert(items.filter_map(f).to_multiset() =~= others.filter_map(f).to_multiset());
    }
}

/// The same values in another order have the same views in another order.
pub proof fn lemma_views_permuted<T: View>(values: Seq<T>, others: Seq<T>)
    requires
        values.to_multiset() == others.to_multiset(),
    ensures
        views(values).to_multiset() == views(others).to_multiset(),
{
    let view = |value: T| Some(value@);
    lemma_views_are_filter_map(values);
    lemma_views_are_filter_map(others);
    lemma_filter_map_permuted(values, others, view);
}

proof fn lemma_views_are_filter_map<T: View>(values: Seq<T>)
    ensures
        views(values) == values.filter_map(|value: T| Some(value@)),
    decreases values.len(),
{
    if values.len() > 0 {
        lemma_views_are_filter_map(values.drop_last());
        lemma_filter_map_last(values, |value: T| Some(value@));
        assert(views(values) =~= views(values.drop_last()).push(values.last()@));
    } else {
        assert(views(values) =~= values.filter_map(|value: T| Some(value@)));
    }
}

/// The views of two sequences, one behind the other.
pub proof fn lemma_views_add<T: View>(first: Seq<T>, second: Seq<T>)
    ensures
        views(first + second) == views(first) + views(second),
{
    assert(views(first + second) =~= views(first) + views(second));
}

/// There is one way to put items of which no two have the same number in the order of their
/// numbers.
pub proof fn lemma_ascending_unique<A>(
    ascending: Seq<A>,
    sorted: Seq<A>,
    number: spec_fn(A) -> u64,
)
    requires
        forall|i: int, j: int|
            0 <= i < j < ascending.len() ==> number(#[trigger] ascending[i]) < number(
                #[trigger] ascending[j],
            ),
        forall|i: int, j: int|
            0 <= i <= j < sorted.len() ==> number(#[trigger] sorted[i]) <= number(
                #[trigger] sorted[j],
            ),
        ascending.to_multiset() == sorted.to_multiset(),
    ensures
        ascending == sorted,
    decreases ascending.len(),
{
    broadcast use vstd::seq_lib::group_to_multiset_ensures;

    assert(ascending.to_multiset().len() == ascending.len());
    assert(sorted.to_multiset().len() == sorted.len());
    if ascending.len() == 0 {
        assert(ascending =~= sorted);
    } else {
        let n = ascending.len() - 1;
        let a = ascending[n];
        let b = sorted[n];
        assert(ascending.contains(a) && sorted.contains(b));
        assert(ascending.to_multiset().count(a) > 0);
        assert(sorted.to_multiset().count(b) > 0);
        assert(sorted.contains(a) && ascending.contains(b));
        let i = choose|i: int| 0 <= i < sorted.len() && sorted[i] == a;
        let j = choose|j: int| 0 <= j < ascending.len() && ascending[j] == b;
        assert(number(sorted[i]) <= number(sorted[n]));
        if j < n {
            assert(number(ascending[j]) < number(ascending[n]));
        }
        assert(a == b);
        let front = ascending.drop_last();
        let other = sorted.drop_last();
        assert(ascending =~= front.push(a));
        assert(sorted =~= other.push(b));
        assert(front.to_multiset() =~= ascending.to_multiset().remove(a));
        assert(other.to_multiset() =~= sorted.to_multiset().remove(b));
        lemma_ascending_unique(front, other, number);
    }
}

/// The views of a sequence stand where the values stand.
pub proof fn law_views_stand_in_place<T: View>(values: Seq<T>)
    ensures
        views(values).len() == values.len(),
        forall|i: int| 0 <= i < values.len() ==> #[trigger] views(values)[i] == values[i]@,
{
}

/// A view is among the views of a sequence just where it is that of one of the values.
pub proof fn lemma_views_contain<T: View>(values: Seq<T>, view: T::V)
    ensures
        views(values).contains(view) <==> exists|i: int|
            0 <= i < values.len() && (#[trigger] values[i])@ == view,
{
    if views(values).contains(view) {
        let i = choose|i: int| 0 <= i < views(values).len() && views(values)[i] == view;
        assert(values[i]@ == view);
    }
    if exists|i: int| 0 <= i < values.len() && (#[trigger] values[i])@ == view {
        let i = choose|i: int| 0 <= i < values.len() && (#[trigger] values[i])@ == view;
        assert(views(values)[i] == view);
    }
}

/// The places go up, and lie within a sequence of some length.
pub open spec fn go_up(places: Seq<int>, len: nat) -> bool {
    &&& forall|k: int| 0 <= k < places.len() ==> 0 <= #[trigger] places[k] < len
    &&& forall|k: int, l: int|
        0 <= k < l < places.len() ==> #[trigger] places[k] < #[trigger] places[l]
}

/// The places of the items that something comes of: what comes out comes of the items at these
/// places, in their order, and something comes of no other item.
pub proof fn lemma_filter_map_places<A, B>(
    items: Seq<A>,
    f: spec_fn(A) -> Option<B>,
) -> (places: Seq<int>)
    ensures
        places.len() == items.filter_map(f).len(),
        go_up(places, items.len()),
        forall|k: int|
            0 <= k < places.len() ==> f(items[#[trigger] places[k]]) == Some(
                items.filter_map(f)[k],
            ),
        forall|i: int|
            0 <= i < items.len() ==> (#[trigger] places.contains(i) <==> f(items[i]) is Some),
    decreases items.len(),
{
    if items.len() == 0 {
        Seq::empty()
    } else {
        let n = items.len() - 1;
        let front = items.drop_last();
        let earlier = lemma_filter_map_places(front, f);
        lemma_filter_map_last(items, f);
        let places = if f(items.last()) is Some {
            earlier.push(n)
        } else {
            earlier
        };
        assert forall|i: int| 0 <= i < items.len() implies (#[trigger] places.contains(i) <==> f(
            items[i],
        ) is Some) by {
            if i < n {
                assert(front[i] == items[i]);
                assert(earlier.contains(i) <==> f(front[i]) is Some);
                if earlier.contains(i) {
                    let k = choose|k: int| 0 <= k < earlier.len() && earlier[k] == i;
                    assert(places[k] == i);
                }
                if places.contains(i) {
                    let k = choose|k: int| 0 <= k < places.len() && places[k] == i;
                    assert(k < earlier.len());
                    assert(earlier[k] == i);
                }
            } else {
                if f(items.last()) is Some {
                    assert(places[places.len() - 1] == i);
                }
                if places.contains(i) {
                    let k = choose|k: int| 0 <= k < places.len() && places[k] == i;
                    if k < earlier.len() {
                        assert(earlier[k] < front.len());
                    }
                }
            }
        }
        assert forall|k: int| 0 <= k < places.len() implies f(items[#[trigger] places[k]]) == Some(
            items.filter_map(f)[k],
        ) by {
            if k < earlier.len() {
                assert(f(front[earlier[k]]) == Some(front.filter_map(f)[k]));
                assert(front[earlier[k]] == items[places[k]]);
            }
        }
        places
    }
}

} // verus!
