//! Sorting paths.

use crate::path::byte_strings;
use crate::path::components;
use crate::path::components_before;
use crate::path::is_components_before;
use crate::path::lemma_components_order;
use crate::path::path_before;
use crate::path::raw;
use crate::path::RawPath;
use crate::text::is_ascending;
use crate::text::lemma_ascending_lists_are_equal;
use vstd::prelude::*;

verus! {

/// What paths are sorted by: their components.
pub open spec fn sort_keys(paths: Seq<Seq<u8>>) -> Seq<Seq<Seq<u8>>> {
    paths.map_values(|p: Seq<u8>| components(p))
}

/// Whether item `i` belongs before item `j`: by the keys, and between equal keys by the place.
pub open spec fn precedes(keys: Seq<Seq<Seq<u8>>>, i: int, j: int) -> bool {
    components_before(keys[i], keys[j]) || (!components_before(keys[j], keys[i]) && i < j)
}

/// Whether `order` lists places so that each belongs before all that follow it.
pub open spec fn is_ordered(keys: Seq<Seq<Seq<u8>>>, order: Seq<int>) -> bool {
    forall|a: int, b: int|
        0 <= a < b < order.len() ==> precedes(keys, #[trigger] order[a], #[trigger] order[b])
}

/// Whether `order` lists every place among the keys once, each before all that it belongs before.
pub open spec fn is_sorting(keys: Seq<Seq<Seq<u8>>>, order: Seq<int>) -> bool {
    &&& order.len() == keys.len()
    &&& forall|i: int| #[trigger] order.contains(i) <==> 0 <= i < keys.len()
    &&& is_ordered(keys, order)
}

/// Whether `sorted` holds the items of `paths` in the order of paths, equal ones in the order in
/// which they were.
pub open spec fn is_sorted_from(sorted: Seq<Seq<u8>>, paths: Seq<Seq<u8>>) -> bool {
    exists|order: Seq<int>|
        #[trigger] is_sorting(sort_keys(paths), order) && sorted == order.map_values(
            |i: int| paths[i],
        )
}

proof fn lemma_precedes(keys: Seq<Seq<Seq<u8>>>, i: int, j: int, k: int)
    ensures
        !precedes(keys, i, i),
        i == j || precedes(keys, i, j) || precedes(keys, j, i),
        precedes(keys, i, j) ==> !precedes(keys, j, i),
        precedes(keys, i, j) && precedes(keys, j, k) ==> precedes(keys, i, k),
{
    lemma_components_order(keys[i], keys[j], keys[k]);
    lemma_components_order(keys[j], keys[k], keys[i]);
    lemma_components_order(keys[k], keys[i], keys[j]);
}

/// There is only one way to sort: two ordered lists of the same places are the same list.
pub proof fn law_sorting_is_unique(keys: Seq<Seq<Seq<u8>>>, a: Seq<int>, b: Seq<int>)
    requires
        is_ordered(keys, a),
        is_ordered(keys, b),
        forall|i: int| a.contains(i) <==> b.contains(i),
    ensures
        a == b,
{
    let before = |i: int, j: int| precedes(keys, i, j);
    assert forall|i: int, j: int| #[trigger] before(i, j) implies !before(j, i) by {
        lemma_precedes(keys, i, j, i);
    }
    lemma_ascending_lists_are_equal(a, b, before);
}

spec fn places(v: Seq<usize>) -> Seq<int> {
    v.map_values(|i: usize| i as int)
}

spec fn key_views(keys: Seq<Vec<Vec<u8>>>) -> Seq<Seq<Seq<u8>>> {
    keys.map_values(|k: Vec<Vec<u8>>| byte_strings(k@))
}

/// Merges two ordered lists of places; those of the left list are smaller than those of the right.
fn merge(keys: &Vec<Vec<Vec<u8>>>, left: &Vec<usize>, right: &Vec<usize>) -> (order: Vec<usize>)
    requires
        left@.len() + right@.len() <= usize::MAX,
        forall|a: int| 0 <= a < left@.len() ==> #[trigger] left@[a] < keys@.len(),
        forall|b: int| 0 <= b < right@.len() ==> #[trigger] right@[b] < keys@.len(),
        forall|a: int, b: int|
            0 <= a < left@.len() && 0 <= b < right@.len() ==> #[trigger] left@[a]
                < #[trigger] right@[b],
        is_ordered(key_views(keys@), places(left@)),
        is_ordered(key_views(keys@), places(right@)),
    ensures
        order@.len() == left@.len() + right@.len(),
        is_ordered(key_views(keys@), places(order@)),
        forall|x: usize| #[trigger] order@.contains(x) <==> left@.contains(x) || right@.contains(x),
{
    let ghost views = key_views(keys@);
    let mut order: Vec<usize> = Vec::new();
    let mut i: usize = 0;
    let mut j: usize = 0;
    while i < left.len() || j < right.len()
        invariant
            i <= left@.len(),
            j <= right@.len(),
            left@.len() + right@.len() <= usize::MAX,
            views == key_views(keys@),
            forall|a: int| 0 <= a < left@.len() ==> #[trigger] left@[a] < keys@.len(),
            forall|b: int| 0 <= b < right@.len() ==> #[trigger] right@[b] < keys@.len(),
            forall|a: int, b: int|
                0 <= a < left@.len() && 0 <= b < right@.len() ==> #[trigger] left@[a]
                    < #[trigger] right@[b],
            is_ordered(views, places(left@)),
            is_ordered(views, places(right@)),
            order@.len() == i + j,
            forall|c: int, d: int|
                0 <= c < d < order@.len() ==> precedes(
                    views,
                    #[trigger] order@[c] as int,
                    #[trigger] order@[d] as int,
                ),
            forall|c: int, a: int|
                0 <= c < order@.len() && i <= a < left@.len() ==> precedes(
                    views,
                    #[trigger] order@[c] as int,
                    #[trigger] left@[a] as int,
                ),
            forall|c: int, b: int|
                0 <= c < order@.len() && j <= b < right@.len() ==> precedes(
                    views,
                    #[trigger] order@[c] as int,
                    #[trigger] right@[b] as int,
                ),
            forall|x: usize| #[trigger]
                order@.contains(x) <==> left@.take(i as int).contains(x) || right@.take(
                    j as int,
                ).contains(x),
        decreases left@.len() - i + right@.len() - j,
    {
        let ghost before = order@;
        assert forall|a: int, b: int| 0 <= a < b < left@.len() implies precedes(
            views,
            #[trigger] left@[a] as int,
            #[trigger] left@[b] as int,
        ) by {
            assert(places(left@)[a] == left@[a] && places(left@)[b] == left@[b]);
        }
        assert forall|a: int, b: int| 0 <= a < b < right@.len() implies precedes(
            views,
            #[trigger] right@[a] as int,
            #[trigger] right@[b] as int,
        ) by {
            assert(places(right@)[a] == right@[a] && places(right@)[b] == right@[b]);
        }
        let take_left: bool;
        if i == left.len() {
            take_left = false;
        } else if j == right.len() {
            take_left = true;
        } else {
            assert(views[left@[i as int] as int] == byte_strings(keys@[left@[i as int] as int]@));
            assert(views[right@[j as int] as int] == byte_strings(keys@[right@[j as int] as int]@));
            take_left = !is_components_before(&keys[right[j]], &keys[left[i]]);
        }
        proof {
            if i < left@.len() && j < right@.len() {
                let x = left@[i as int] as int;
                let y = right@[j as int] as int;
                lemma_precedes(views, x, y, x);
                if take_left {
                    assert(precedes(views, x, y));
                    assert forall|b: int| j <= b < right@.len() implies precedes(
                        views,
                        x,
                        #[trigger] right@[b] as int,
                    ) by {
                        lemma_precedes(views, x, y, right@[b] as int);
                    }
                } else {
                    assert(precedes(views, y, x));
                    assert forall|a: int| i <= a < left@.len() implies precedes(
                        views,
                        y,
                        #[trigger] left@[a] as int,
                    ) by {
                        lemma_precedes(views, y, x, left@[a] as int);
                    }
                }
            }
        }
        if take_left {
            order.push(left[i]);
            proof {
                lemma_take_contains(left@, i as int);
                lemma_push_contains(before, left@[i as int]);
            }
            i += 1;
        } else {
            order.push(right[j]);
            proof {
                lemma_take_contains(right@, j as int);
                lemma_push_contains(before, right@[j as int]);
            }
            j += 1;
        }
    }
    assert(left@.take(left@.len() as int) =~= left@);
    assert(right@.take(right@.len() as int) =~= right@);
    order
}

proof fn lemma_take_contains(s: Seq<usize>, i: int)
    requires
        0 <= i < s.len(),
    ensures
        forall|x: usize| #[trigger]
            s.take(i + 1).contains(x) <==> s.take(i).contains(x) || x == s[i],
{
    assert(s.take(i + 1) =~= s.take(i).push(s[i]));
    lemma_push_contains(s.take(i), s[i]);
}

proof fn lemma_push_contains(s: Seq<usize>, y: usize)
    ensures
        forall|x: usize| #[trigger] s.push(y).contains(x) <==> s.contains(x) || x == y,
{
    assert forall|x: usize| #[trigger] s.push(y).contains(x) <==> s.contains(x) || x == y by {
        if s.contains(x) {
            let k = choose|k: int| 0 <= k < s.len() && s[k] == x;
            assert(s.push(y)[k] == x);
        }
        if x == y {
            assert(s.push(y)[s.len() as int] == x);
        }
        if s.push(y).contains(x) && x != y {
            let k = choose|k: int| 0 <= k < s.push(y).len() && s.push(y)[k] == x;
            assert(s[k] == x);
        }
    }
}

/// The places from `from` up to `to` in order.
fn order_between(keys: &Vec<Vec<Vec<u8>>>, from: usize, to: usize) -> (order: Vec<usize>)
    requires
        from <= to <= keys@.len(),
    ensures
        order@.len() == to - from,
        is_ordered(key_views(keys@), places(order@)),
        forall|x: usize| #[trigger] order@.contains(x) <==> from <= x < to,
    decreases to - from,
{
    if to - from <= 1 {
        let mut order: Vec<usize> = Vec::new();
        if from < to {
            order.push(from);
            assert(order@[0] == from);
        }
        return order;
    }
    let middle: usize = from + (to - from) / 2;
    let left = order_between(keys, from, middle);
    let right = order_between(keys, middle, to);
    assert forall|a: int| 0 <= a < left@.len() implies from <= #[trigger] left@[a] < middle by {
        assert(left@.contains(left@[a]));
    }
    assert forall|b: int| 0 <= b < right@.len() implies middle <= #[trigger] right@[b] < to by {
        assert(right@.contains(right@[b]));
    }
    merge(keys, &left, &right)
}

/// The paths in the order of paths, equal ones in the order in which they were.
pub fn sort_paths(paths: &Vec<RawPath>) -> (sorted: Vec<RawPath>)
    ensures
        is_sorted_from(raw(sorted@), raw(paths@)),
{
    let ghost items = raw(paths@);
    let ghost all = sort_keys(items);
    let mut keys: Vec<Vec<Vec<u8>>> = Vec::new();
    let mut i: usize = 0;
    while i < paths.len()
        invariant
            i <= paths@.len(),
            items == raw(paths@),
            all == sort_keys(items),
            keys@.len() == i,
            forall|k: int| 0 <= k < i ==> byte_strings((#[trigger] keys@[k])@) == all[k],
        decreases paths@.len() - i,
    {
        keys.push(paths[i].components());
        i += 1;
    }
    assert(key_views(keys@) =~= all);
    let order = order_between(&keys, 0, keys.len());
    let ghost list = places(order@);
    let mut sorted: Vec<RawPath> = Vec::new();
    let mut k: usize = 0;
    while k < order.len()
        invariant
            k <= order@.len(),
            items == raw(paths@),
            forall|x: usize| #[trigger] order@.contains(x) <==> 0 <= x < paths@.len(),
            sorted@.len() == k,
            forall|c: int| 0 <= c < k ==> (#[trigger] sorted@[c])@ == items[order@[c] as int],
        decreases order@.len() - k,
    {
        assert(order@.contains(order@[k as int]));
        sorted.push(paths[order[k]].duplicate());
        k += 1;
    }
    proof {
        assert forall|x: int| #[trigger] list.contains(x) <==> 0 <= x < all.len() by {
            if list.contains(x) {
                let c = choose|c: int| 0 <= c < list.len() && list[c] == x;
                assert(order@.contains(order@[c]));
            }
            if 0 <= x < all.len() {
                assert(order@.contains(x as usize));
                let c = choose|c: int| 0 <= c < order@.len() && order@[c] == x as usize;
                assert(list[c] == x);
            }
        }
        assert(is_sorting(all, list));
        assert(raw(sorted@) =~= list.map_values(|i: int| items[i]));
    }
    sorted
}

/// What is sorted has the items of the list and no others, no item of it comes before one that
/// stands earlier, and there is only one such result.
pub proof fn law_sorted_paths(sorted: Seq<Seq<u8>>, other: Seq<Seq<u8>>, paths: Seq<Seq<u8>>)
    requires
        is_sorted_from(sorted, paths),
        is_sorted_from(other, paths),
    ensures
        sorted == other,
        sorted.len() == paths.len(),
        forall|path: Seq<u8>| #[trigger] sorted.contains(path) <==> paths.contains(path),
        forall|a: int, b: int|
            0 <= a < b < sorted.len() ==> !path_before(#[trigger] sorted[b], #[trigger] sorted[a]),
{
    let keys = sort_keys(paths);
    let order = choose|order: Seq<int>| #[trigger]
        is_sorting(keys, order) && sorted == order.map_values(|i: int| paths[i]);
    let second = choose|order: Seq<int>| #[trigger]
        is_sorting(keys, order) && other == order.map_values(|i: int| paths[i]);
    assert forall|i: int| order.contains(i) <==> second.contains(i) by {
        assert(order.contains(i) <==> 0 <= i < keys.len());
        assert(second.contains(i) <==> 0 <= i < keys.len());
    }
    law_sorting_is_unique(keys, order, second);
    assert forall|path: Seq<u8>| #[trigger] sorted.contains(path) <==> paths.contains(path) by {
        if sorted.contains(path) {
            let k = choose|k: int| 0 <= k < sorted.len() && sorted[k] == path;
            assert(order.contains(order[k]));
            assert(paths[order[k]] == path);
        }
        if paths.contains(path) {
            let i = choose|i: int| 0 <= i < paths.len() && paths[i] == path;
            assert(order.contains(i));
            let k = choose|k: int| 0 <= k < order.len() && order[k] == i;
            assert(sorted[k] == path);
        }
    }
    assert forall|a: int, b: int| 0 <= a < b < sorted.len() implies !path_before(
        #[trigger] sorted[b],
        #[trigger] sorted[a],
    ) by {
        assert(order.contains(order[a]) && order.contains(order[b]));
        assert(precedes(keys, order[a], order[b]));
        lemma_components_order(keys[order[a]], keys[order[b]], keys[order[a]]);
    }
}

proof fn lemma_filter_members<T>(list: Seq<T>, keep: spec_fn(T) -> bool, x: T)
    ensures
        list.filter(keep).contains(x) <==> list.contains(x) && keep(x),
    decreases list.len(),
{
    reveal(Seq::filter);
    if list.len() > 0 {
        let front = list.drop_last();
        let last = list.last();
        lemma_filter_members(front, keep, x);
        assert(list =~= front.push(last));
        assert(front.push(last).contains(x) <==> front.contains(x) || x == last) by {
            if front.contains(x) {
                let k = choose|k: int| 0 <= k < front.len() && front[k] == x;
                assert(front.push(last)[k] == x);
            }
            assert(front.push(last)[front.len() as int] == last);
        }
        let kept = front.filter(keep);
        assert(kept.push(last).contains(x) <==> kept.contains(x) || x == last) by {
            if kept.contains(x) {
                let k = choose|k: int| 0 <= k < kept.len() && kept[k] == x;
                assert(kept.push(last)[k] == x);
            }
            assert(kept.push(last)[kept.len() as int] == last);
        }
    }
}

proof fn lemma_filter_ascends<T>(
    list: Seq<T>,
    keep: spec_fn(T) -> bool,
    before: spec_fn(T, T) -> bool,
)
    requires
        forall|i: int, j: int|
            0 <= i < j < list.len() && keep(#[trigger] list[i]) && keep(#[trigger] list[j])
                ==> before(list[i], list[j]),
    ensures
        is_ascending(list.filter(keep), before),
    decreases list.len(),
{
    reveal(Seq::filter);
    if list.len() > 0 {
        let front = list.drop_last();
        let last = list.last();
        let kept = front.filter(keep);
        assert forall|i: int, j: int|
            0 <= i < j < front.len() && keep(#[trigger] front[i]) && keep(
                #[trigger] front[j],
            ) implies before(front[i], front[j]) by {
            assert(front[i] == list[i] && front[j] == list[j]);
        }
        lemma_filter_ascends(front, keep, before);
        if keep(last) {
            let all = kept.push(last);
            assert forall|i: int, j: int| 0 <= i < j < all.len() implies before(
                #[trigger] all[i],
                #[trigger] all[j],
            ) by {
                if j < kept.len() {
                    assert(before(kept[i], kept[j]));
                } else {
                    lemma_filter_members(front, keep, kept[i]);
                    assert(kept.contains(kept[i]));
                    let k = choose|k: int| 0 <= k < front.len() && front[k] == kept[i];
                    assert(list[k] == kept[i]);
                    assert(list[list.len() - 1] == last);
                    assert(before(list[k], list[list.len() - 1]));
                }
            }
        }
    }
}

proof fn lemma_filter_of_map<T, U>(list: Seq<T>, f: spec_fn(T) -> U, keep: spec_fn(U) -> bool)
    ensures
        list.map_values(f).filter(keep) == list.filter(|x: T| keep(f(x))).map_values(f),
    decreases list.len(),
{
    reveal(Seq::filter);
    let pick = |x: T| keep(f(x));
    if list.len() > 0 {
        let front = list.drop_last();
        lemma_filter_of_map(front, f, keep);
        assert(list.map_values(f).drop_last() =~= front.map_values(f));
        assert(list.map_values(f).last() == f(list.last()));
        assert(list.map_values(f).filter(keep) =~= list.filter(pick).map_values(f));
    } else {
        assert(list.map_values(f) =~= Seq::empty());
        assert(list.map_values(f).filter(keep) =~= list.filter(pick).map_values(f));
    }
}

/// Sorting loses no path and adds none, and leaves paths that have the same components in the order
/// in which they were: whichever components are looked for, the paths that have them are the same
/// list before and after.
pub proof fn law_sorting_keeps_equal_paths(
    sorted: Seq<Seq<u8>>,
    paths: Seq<Seq<u8>>,
    key: Seq<Seq<u8>>,
)
    requires
        is_sorted_from(sorted, paths),
    ensures
        sorted.filter(|path: Seq<u8>| components(path) == key) == paths.filter(
            |path: Seq<u8>| components(path) == key,
        ),
{
    let keys = sort_keys(paths);
    let order = choose|order: Seq<int>| #[trigger]
        is_sorting(keys, order) && sorted == order.map_values(|i: int| paths[i]);
    let n = paths.len();
    let list = Seq::new(n, |i: int| i);
    let keep = |path: Seq<u8>| components(path) == key;
    let path_at = |i: int| paths[i];
    let pick = |i: int| keep(path_at(i));
    let before = |i: int, j: int| precedes(keys, i, j);
    assert(list.map_values(path_at) =~= paths);
    assert(order.map_values(path_at) =~= sorted);
    lemma_filter_of_map(order, path_at, keep);
    lemma_filter_of_map(list, path_at, keep);
    assert forall|i: int, j: int| #[trigger] before(i, j) implies !before(j, i) by {
        lemma_precedes(keys, i, j, i);
    }
    lemma_filter_ascends(order, pick, before);
    assert forall|i: int, j: int|
        0 <= i < j < list.len() && pick(#[trigger] list[i]) && pick(#[trigger] list[j]) implies
        before(list[i], list[j]) by {
        assert(keys[i] == key && keys[j] == key);
        lemma_components_order(key, key, key);
    }
    lemma_filter_ascends(list, pick, before);
    assert forall|i: int| order.filter(pick).contains(i) <==> list.filter(pick).contains(i) by {
        lemma_filter_members(order, pick, i);
        lemma_filter_members(list, pick, i);
        assert(order.contains(i) <==> 0 <= i < keys.len());
        if 0 <= i < n {
            assert(list[i] == i);
        }
    }
    lemma_ascending_lists_are_equal(order.filter(pick), list.filter(pick), before);
}

} // verus!
