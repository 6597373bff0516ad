//! Properties that relate the operations on a drop zone's items.
use vstd::prelude::*;
use crate::DndItem;
use crate::droppable::{moved, reordered, matches_item, match_at, first_match, measured, mounted_indices, registered, untracked, drop_move, drop_slot_at, index_or_zero, PointerZone, ItemGeometry};
use crate::search::{first_where, is_first_where, lemma_first_where_is, lemma_first_where_none, lemma_first_where_some};
use vstd::std_specs::cmp::PartialEqSpec;
use vstd::laws_eq::{obeys_concrete_eq, obeys_eq, obeys_eq_spec_properties};

verus! {

broadcast use vstd::seq_lib::group_to_multiset_ensures;

/// The index of `s` from which `moved(s, from, to)` takes its element `k`.
pub open spec fn moved_source(from: int, to: int, k: int) -> int {
    if k == to {
        from
    } else {
        let r = if k < to { k } else { k - 1 };
        if r < from { r } else { r + 1 }
    }
}

/// `moved(s, from, to)` has the length of `s`, and its element `k` is the
/// element `moved_source(from, to, k)` of `s`; distinct indices have distinct sources.
pub proof fn lemma_moved_index<X>(s: Seq<X>, from: int, to: int)
    requires
        0 <= from < s.len(),
        0 <= to < s.len(),
    ensures
        moved(s, from, to).len() == s.len(),
        forall|k: int| 0 <= k < s.len() ==> 0 <= #[trigger] moved_source(from, to, k) < s.len(),
        forall|k: int| 0 <= k < s.len() ==> #[trigger] moved(s, from, to)[k] == s[moved_source(from, to, k)],
        forall|i: int, j: int|
            0 <= i < s.len() && 0 <= j < s.len() && i != j ==> #[trigger] moved_source(from, to, i)
                != #[trigger] moved_source(from, to, j),
{
    s.remove_ensures(from);
    s.remove(from).insert_ensures(to, s[from]);
    assert forall|k: int| 0 <= k < s.len() implies #[trigger] moved(s, from, to)[k] == s[moved_source(from, to, k)] by {
        if k < to {
        } else if k > to {
            assert(moved(s, from, to)[k] == s.remove(from)[k - 1]);
        }
    }
}

/// Moving an element never adds or loses one: the result holds the same
/// elements, each as often, as the sequence it came from.
pub proof fn lemma_moved_is_permutation<X>(s: Seq<X>, from: int, to: int)
    requires
        0 <= from < s.len(),
        0 <= to < s.len(),
    ensures
        moved(s, from, to).to_multiset() == s.to_multiset(),
        moved(s, from, to)[to] == s[from],
{
    lemma_moved_index(s, from, to);
    let m = moved(s, from, to);
    assert(m.remove(to) =~= s.remove(from)) by {
        s.remove_ensures(from);
        m.remove_ensures(to);
        s.remove(from).insert_ensures(to, s[from]);
    }
    let a = s[from];
    assert(m.to_multiset().remove(a) == s.to_multiset().remove(a));
    assert(m.contains(a)) by {
        assert(m[to] == a);
    }
    assert(s.contains(a)) by {
        assert(s[from] == a);
    }
    assert(m.to_multiset() =~= s.to_multiset()) by {
        assert forall|x: X| #[trigger] m.to_multiset().count(x) == s.to_multiset().count(x) by {
            if x != a {
                assert(m.to_multiset().remove(a).count(x) == m.to_multiset().count(x));
                assert(s.to_multiset().remove(a).count(x) == s.to_multiset().count(x));
            } else {
                assert(m.to_multiset().remove(a).count(x) == m.to_multiset().count(x) - 1);
                assert(s.to_multiset().remove(a).count(x) == s.to_multiset().count(x) - 1);
            }
        }
    }
}

/// Moving an element and moving it back gives the sequence it came from.
pub proof fn lemma_move_back_restores<X>(s: Seq<X>, from: int, to: int)
    requires
        0 <= from < s.len(),
        0 <= to < s.len(),
    ensures
        moved(moved(s, from, to), to, from) == s,
{
    lemma_moved_index(s, from, to);
    lemma_moved_index(moved(s, from, to), to, from);
    assert(moved(moved(s, from, to), to, from) =~= s);
}

/// No two tracked items of `s` stand for each other.
pub open spec fn distinct_values<T: DndItem, R, M>(s: Seq<ItemGeometry<T, R, M>>) -> bool {
    forall|i: int, j: int|
        #![trigger s[i], s[j]]
        0 <= i < s.len() && 0 <= j < s.len() && i != j ==> !s[i].value.eq_spec(&s[j].value)
}

/// Where the layout `target` is a reordering of the tracked items `pool`,
/// with no two items standing for each other, and `items` names the items of
/// `target` in order, laying out `items` over `pool` yields exactly `target`.
pub proof fn lemma_reordered_is_target<T: DndItem, R, M>(
    pool: Seq<ItemGeometry<T, R, M>>,
    items: Seq<T>,
    target: Seq<ItemGeometry<T, R, M>>,
)
    requires
        obeys_eq::<T>(),
        target.len() == items.len(),
        pool.to_multiset() == target.to_multiset(),
        forall|k: int| 0 <= k < items.len() ==> matches_item(#[trigger] target[k], items[k]),
        distinct_values(target),
    ensures
        reordered(pool, items) == target,
    decreases items.len(),
{
    reveal(obeys_eq_spec_properties);
    if items.len() == 0 {
        assert(target =~= Seq::<ItemGeometry<T, R, M>>::empty());
    } else {
        let x = items[0];
        let head = target[0];
        assert(matches_item(target[0], items[0]));
        assert(target.contains(head));
        assert(target.to_multiset().count(head) > 0);
        assert(pool.to_multiset().count(head) > 0);
        assert(pool.contains(head));
        let i = choose|i: int| 0 <= i < pool.len() && pool[i] == head;
        assert(match_at(pool, x)(i));
        lemma_first_where_some(pool.len() as int, match_at(pool, x), i);
        let j = first_match(pool, x).unwrap();
        assert(match_at(pool, x)(j));
        assert(pool.contains(pool[j]));
        assert(pool.to_multiset().count(pool[j]) > 0);
        assert(target.to_multiset().count(pool[j]) > 0);
        assert(target.contains(pool[j]));
        let m = choose|m: int| 0 <= m < target.len() && target[m] == pool[j];
        if m != 0 {
            assert(target[m].value.eq_spec(&x));
            assert(x.eq_spec(&target[0].value));
            assert(target[m].value.eq_spec(&target[0].value));
            assert(false);
        }
        assert(pool[j] == head);
        let rest_target = target.drop_first();
        assert(target.remove(0) =~= rest_target);
        assert(pool.remove(j).to_multiset() == rest_target.to_multiset());
        assert forall|k: int| 0 <= k < items.drop_first().len() implies matches_item(
            #[trigger] rest_target[k],
            items.drop_first()[k],
        ) by {
            assert(matches_item(target[k + 1], items[k + 1]));
        }
        assert forall|a: int, b: int|
            #![trigger rest_target[a], rest_target[b]]
            0 <= a < rest_target.len() && 0 <= b < rest_target.len() && a != b implies
            !rest_target[a].value.eq_spec(&rest_target[b].value) by {
            assert(!target[a + 1].value.eq_spec(&target[b + 1].value));
        }
        lemma_reordered_is_target(pool.remove(j), items.drop_first(), rest_target);
        assert(reordered(pool, items) =~= seq![head] + rest_target);
        assert(seq![head] + rest_target =~= target);
    }
}

/// The sorting law of a drop zone: while its tracked items stand, in order,
/// for the zone's items, which are pairwise distinct, moving an item and
/// laying the moved items out again moves the tracked items the same way:
/// every item keeps its measured box and its mounted handle.
pub proof fn lemma_reorder_follows_move<T: DndItem, R, M>(
    elements: Seq<ItemGeometry<T, R, M>>,
    items: Seq<T>,
    from: int,
    to: int,
)
    requires
        obeys_eq::<T>(),
        elements.len() == items.len(),
        0 <= from < items.len(),
        0 <= to < items.len(),
        forall|k: int| 0 <= k < items.len() ==> matches_item(#[trigger] elements[k], items[k]),
        forall|i: int, j: int|
            #![trigger items[i], items[j]]
            0 <= i < items.len() && 0 <= j < items.len() && i != j ==> !items[i].eq_spec(&items[j]),
    ensures
        reordered(elements, moved(items, from, to)) == moved(elements, from, to),
{
    reveal(obeys_eq_spec_properties);
    lemma_moved_index(elements, from, to);
    lemma_moved_index(items, from, to);
    lemma_moved_is_permutation(elements, from, to);
    let target = moved(elements, from, to);
    let order = moved(items, from, to);
    assert forall|k: int| 0 <= k < order.len() implies matches_item(#[trigger] target[k], order[k]) by {
        let src = moved_source(from, to, k);
        assert(matches_item(elements[src], items[src]));
    }
    assert forall|a: int, b: int|
        #![trigger target[a], target[b]]
        0 <= a < target.len() && 0 <= b < target.len() && a != b implies
        !target[a].value.eq_spec(&target[b].value) by {
        let sa = moved_source(from, to, a);
        let sb = moved_source(from, to, b);
        assert(sa != sb);
        if target[a].value.eq_spec(&target[b].value) {
            assert(matches_item(elements[sa], items[sa]));
            assert(matches_item(elements[sb], items[sb]));
            assert(items[sa].eq_spec(&elements[sa].value));
            assert(items[sa].eq_spec(&elements[sb].value));
            assert(items[sa].eq_spec(&items[sb]));
            assert(false);
        }
    }
    lemma_reordered_is_target(elements, order, target);
}

/// Storing measured boxes changes only boxes: the length, the values and the
/// mounted handles stay; an item named in `results` ends with a box.
pub proof fn lemma_measured_sets_boxes<T, R, M>(s: Seq<ItemGeometry<T, R, M>>, results: Seq<(usize, R)>)
    ensures
        measured(s, results).len() == s.len(),
        forall|i: int|
            0 <= i < s.len() ==> (#[trigger] measured(s, results)[i]).value == s[i].value
                && measured(s, results)[i].mounted == s[i].mounted,
        forall|k: int, i: int|
            0 <= k < results.len() && 0 <= i < s.len() && #[trigger] results[k].0 == i ==> (
            #[trigger] measured(s, results)[i]).rect is Some,
    decreases results.len(),
{
    if results.len() > 0 {
        let prefix = results.drop_last();
        lemma_measured_sets_boxes(s, prefix);
        assert forall|k: int, i: int|
            0 <= k < results.len() && 0 <= i < s.len() && #[trigger] results[k].0 == i implies (
            #[trigger] measured(s, results)[i]).rect is Some by {
            if k < results.len() - 1 {
                assert(prefix[k] == results[k]);
                assert(measured(s, prefix)[i].rect is Some);
            }
        }
    }
}

/// `mounted_indices(s, n)` lists exactly the indices below `n` of the items
/// that have a mounted handle.
pub proof fn lemma_mounted_indices_members<T, R, M>(s: Seq<ItemGeometry<T, R, M>>, n: int)
    requires
        0 <= n <= s.len(),
    ensures
        forall|i: int|
            0 <= i < n && (#[trigger] s[i]).mounted is Some ==> mounted_indices(s, n).contains(
                i,
            ),
        forall|k: int|
            0 <= k < mounted_indices(s, n).len() ==> (#[trigger] mounted_indices(s, n)[k]) < n
                && s[mounted_indices(s, n)[k] as int].mounted is Some,
    decreases n,
{
    if n > 0 {
        lemma_mounted_indices_members(s, n - 1);
        let prev = mounted_indices(s, n - 1);
        assert forall|i: int|
            0 <= i < n && (#[trigger] s[i]).mounted is Some implies mounted_indices(s, n).contains(
            i,
        ) by {
            if i < n - 1 {
                let k = choose|k: int| 0 <= k < prev.len() && prev[k] == i;
                if s[n - 1].mounted is Some {
                    assert(mounted_indices(s, n)[k] == i);
                }
            } else {
                assert(mounted_indices(s, n)[prev.len() as int] == i);
            }
        }
    }
}

/// The indices of mounted items are listed in strictly increasing order.
pub proof fn lemma_mounted_indices_increasing<T, R, M>(s: Seq<ItemGeometry<T, R, M>>, n: int)
    requires
        0 <= n <= s.len(),
    ensures
        forall|a: int, b: int|
            #![trigger mounted_indices(s, n)[a], mounted_indices(s, n)[b]]
            0 <= a < b < mounted_indices(s, n).len() ==> mounted_indices(s, n)[a] < mounted_indices(
                s,
                n,
            )[b],
    decreases n,
{
    if n > 0 {
        lemma_mounted_indices_increasing(s, n - 1);
        lemma_mounted_indices_members(s, n - 1);
    }
}

/// Where no two results name the same item, storing them gives each named
/// item (in range) exactly the box measured for it, and leaves the box of
/// every item not named as it was.
pub proof fn lemma_measured_exact<T, R, M>(s: Seq<ItemGeometry<T, R, M>>, results: Seq<(usize, R)>)
    requires
        forall|a: int, b: int|
            #![trigger results[a], results[b]]
            0 <= a < results.len() && 0 <= b < results.len() && a != b ==> results[a].0 != results[b].0,
    ensures
        forall|k: int|
            0 <= k < results.len() && #[trigger] results[k].0 < s.len() ==> measured(s, results)[results[k].0 as int].rect
                == Some(results[k].1),
        forall|i: int|
            0 <= i < s.len() && (forall|k: int| 0 <= k < results.len() ==> #[trigger] results[k].0 != i)
                ==> (#[trigger] measured(s, results)[i]).rect == s[i].rect,
    decreases results.len(),
{
    if results.len() > 0 {
        let prefix = results.drop_last();
        assert forall|a: int, b: int|
            #![trigger prefix[a], prefix[b]]
            0 <= a < prefix.len() && 0 <= b < prefix.len() && a != b implies prefix[a].0 != prefix[b].0 by {
            assert(prefix[a] == results[a] && prefix[b] == results[b]);
        }
        lemma_measured_exact(s, prefix);
        lemma_measured_sets_boxes(s, prefix);
        let last = results.len() - 1;
        assert forall|k: int|
            0 <= k < results.len() && #[trigger] results[k].0 < s.len() implies measured(s, results)[results[k].0 as int].rect
            == Some(results[k].1) by {
            if k < last {
                assert(prefix[k] == results[k]);
                assert(results[k].0 != results[last].0);
            }
        }
        assert forall|i: int|
            0 <= i < s.len() && (forall|k: int| 0 <= k < results.len() ==> #[trigger] results[k].0 != i)
            implies (#[trigger] measured(s, results)[i]).rect == s[i].rect by {
            assert(results[last].0 != i);
            assert forall|k: int| 0 <= k < prefix.len() implies #[trigger] prefix[k].0 != i by {
                assert(prefix[k] == results[k]);
            }
        }
    }
}

/// The measuring law of a drop zone: once every item named by the
/// measurement targets has been measured, in that order, every tracked item
/// with a mounted handle holds exactly the box measured for it, every other
/// item keeps its box, and values and handles are unchanged.
pub proof fn lemma_measuring_targets_covers_mounted<T, R, M>(
    s: Seq<ItemGeometry<T, R, M>>,
    results: Seq<(usize, R)>,
)
    requires
        results.map_values(|p: (usize, R)| p.0 as int) == mounted_indices(s, s.len() as int),
    ensures
        measured(s, results).len() == s.len(),
        forall|i: int|
            0 <= i < s.len() ==> (#[trigger] measured(s, results)[i]).value == s[i].value
                && measured(s, results)[i].mounted == s[i].mounted
                && (s[i].mounted is Some ==> measured(s, results)[i].rect is Some)
                && (s[i].mounted is None ==> measured(s, results)[i].rect == s[i].rect),
        forall|k: int|
            0 <= k < results.len() ==> #[trigger] results[k].0 < s.len() && s[results[k].0 as int].mounted is Some
                && measured(s, results)[results[k].0 as int].rect == Some(results[k].1),
{
    let idx = mounted_indices(s, s.len() as int);
    lemma_measured_sets_boxes(s, results);
    lemma_mounted_indices_members(s, s.len() as int);
    lemma_mounted_indices_increasing(s, s.len() as int);
    assert forall|k: int| 0 <= k < results.len() implies #[trigger] results[k].0 == idx[k] by {
        assert(results.map_values(|p: (usize, R)| p.0 as int)[k] == results[k].0);
    }
    assert forall|a: int, b: int|
        #![trigger results[a], results[b]]
        0 <= a < results.len() && 0 <= b < results.len() && a != b implies results[a].0 != results[b].0 by {
        assert(results[a].0 == idx[a] && results[b].0 == idx[b]);
        if a < b {
            assert(idx[a] < idx[b]);
        } else {
            assert(idx[b] < idx[a]);
        }
    }
    lemma_measured_exact(s, results);
    assert forall|i: int| 0 <= i < s.len() && s[i].mounted is Some implies (#[trigger] measured(
        s,
        results,
    )[i]).rect is Some by {
        assert(idx.contains(i));
        let k = choose|k: int| 0 <= k < idx.len() && idx[k] == i;
        assert(results[k].0 == i);
    }
    assert forall|i: int| 0 <= i < s.len() && s[i].mounted is None implies (#[trigger] measured(
        s,
        results,
    )[i]).rect == s[i].rect by {
        assert forall|k: int| 0 <= k < results.len() implies #[trigger] results[k].0 != i by {
            assert(results[k].0 == idx[k]);
            assert(s[idx[k]].mounted is Some);
        }
    }
    assert forall|k: int| 0 <= k < results.len() implies #[trigger] results[k].0 < s.len()
        && s[results[k].0 as int].mounted is Some by {
        assert(results[k].0 == idx[k]);
    }
}

/// A tracked item that receives a mounted handle is among the items measured next.
pub proof fn lemma_registered_is_measured<T: DndItem, R, M>(s: Seq<ItemGeometry<T, R, M>>, x: T, m: M)
    requires
        first_match(s, x) is Some,
    ensures
        mounted_indices(registered(s, x, m), s.len() as int).contains(first_match(s, x).unwrap()),
{
    let i = first_match(s, x).unwrap();
    let t = registered(s, x, m);
    assert(t[i].mounted is Some);
    lemma_mounted_indices_members(t, s.len() as int);
}

/// After a re-layout the tracked list follows the items one for one: entry
/// `k` either stands for item `k` or tracks item `k` afresh.
pub proof fn lemma_reordered_follows_items<T: DndItem, R, M>(
    pool: Seq<ItemGeometry<T, R, M>>,
    items: Seq<T>,
)
    ensures
        reordered(pool, items).len() == items.len(),
        forall|k: int|
            0 <= k < items.len() ==> matches_item(#[trigger] reordered(pool, items)[k], items[k])
                || reordered(pool, items)[k] == untracked::<T, R, M>(items[k]),
    decreases items.len(),
{
    if items.len() > 0 {
        let x = items[0];
        let tail = items.drop_first();
        match first_match(pool, x) {
            Some(i) => {
                lemma_reordered_follows_items(pool.remove(i), tail);
                assert(match_at(pool, x)(i)) by {
                    lemma_first_match_holds(pool, x);
                }
            },
            None => {
                lemma_reordered_follows_items(pool, tail);
            },
        }
        let r = reordered(pool, items);
        assert forall|k: int| 0 <= k < items.len() implies matches_item(#[trigger] r[k], items[k])
            || r[k] == untracked::<T, R, M>(items[k]) by {
            if k > 0 {
                assert(tail[k - 1] == items[k]);
            }
        }
    }
}

/// The index `first_match` gives stands for the value sought.
pub proof fn lemma_first_match_holds<T: DndItem, R, M>(s: Seq<ItemGeometry<T, R, M>>, x: T)
    requires
        first_match(s, x) is Some,
    ensures
        0 <= first_match(s, x).unwrap() < s.len(),
        match_at(s, x)(first_match(s, x).unwrap()),
{
}

/// Laying out again the very items a drop zone already shows, in the same
/// order, keeps every entry as it was (value, box and handle), repeated
/// values included, for any `==` under which each shown value equals itself.
pub proof fn lemma_relayout_same_items_keeps_entries<T: DndItem, R, M>(old: Seq<ItemGeometry<T, R, M>>)
    requires
        forall|k: int| 0 <= k < old.len() ==> matches_item(#[trigger] old[k], old[k].value),
    ensures
        reordered(old, old.map_values(|e: ItemGeometry<T, R, M>| e.value)) == old,
    decreases old.len(),
{
    let items = old.map_values(|e: ItemGeometry<T, R, M>| e.value);
    if old.len() == 0 {
        assert(reordered(old, items) =~= old);
    } else {
        assert(items[0] == old[0].value);
        assert(match_at(old, items[0])(0));
        lemma_first_where_is(old.len() as int, match_at(old, items[0]), 0);
        let rest = old.drop_first();
        assert(old.remove(0) =~= rest);
        assert(items.drop_first() =~= rest.map_values(|e: ItemGeometry<T, R, M>| e.value));
        assert forall|k: int| 0 <= k < rest.len() implies matches_item(#[trigger] rest[k], rest[k].value) by {
            assert(rest[k] == old[k + 1]);
        }
        lemma_relayout_same_items_keeps_entries(rest);
        assert(reordered(old, items) =~= old);
    }
}

/// For an item type whose `==` is plain equality, the values of the tracked
/// list after a re-layout are exactly the items, in order.
pub proof fn lemma_relayout_values_are_items<T: DndItem, R, M>(
    pool: Seq<ItemGeometry<T, R, M>>,
    items: Seq<T>,
)
    requires
        obeys_concrete_eq::<T>(),
    ensures
        reordered(pool, items).map_values(|e: ItemGeometry<T, R, M>| e.value) == items,
{
    reveal(obeys_concrete_eq);
    lemma_reordered_follows_items(pool, items);
    let r = reordered(pool, items);
    let values = r.map_values(|e: ItemGeometry<T, R, M>| e.value);
    assert forall|k: int| 0 <= k < items.len() implies #[trigger] values[k] == items[k] by {
        if matches_item(r[k], items[k]) {
            assert(r[k].value.eq_spec(&items[k]));
        }
    }
    assert(values =~= items);
}

/// The sorting step of a drop zone: while the tracked values are the zone's
/// items (with `==` plain equality), the move that dragging `active` calls
/// for takes the first occurrence of `active` to a slot the pointer stands
/// in, and performing it on the items puts `active` at `to`, keeps the
/// items as a multiset, and keeps the order of all the others.
pub proof fn lemma_drop_moves_active_item<T: DndItem, R, M>(
    elements: Seq<ItemGeometry<T, R, M>>,
    items: Seq<T>,
    active: T,
    zones: Seq<PointerZone>,
    from: int,
    to: int,
)
    requires
        obeys_concrete_eq::<T>(),
        elements.len() == items.len(),
        forall|k: int| 0 <= k < items.len() ==> (#[trigger] elements[k]).value == items[k],
        drop_move(elements, active, zones) == Some((from, to)),
    ensures
        0 <= from < items.len(),
        0 <= to < items.len(),
        from != to,
        items[from] == active,
        forall|j: int| 0 <= j < from ==> #[trigger] items[j] != active,
        zones[to] is BeforeCenter || zones[to] is AfterCenter,
        elements[to].rect is Some,
        moved(items, from, to).len() == items.len(),
        moved(items, from, to)[to] == active,
        moved(items, from, to).to_multiset() == items.to_multiset(),
        moved(items, from, to).remove(to) == items.remove(from),
{
    reveal(obeys_concrete_eq);
    let f = first_match(elements, active);
    let p = drop_slot_at(elements, zones, index_or_zero(f));
    let t = first_where(elements.len() as int, p);
    assert(f == Some(from) && t == Some(to));
    assert(is_first_where(elements.len() as int, match_at(elements, active), from));
    assert(is_first_where(elements.len() as int, p, to));
    assert(match_at(elements, active)(from));
    assert(elements[from].value.eq_spec(&active));
    assert forall|j: int| 0 <= j < from implies #[trigger] items[j] != active by {
        assert(!match_at(elements, active)(j));
        assert(elements[j].value == items[j]);
    }
    assert(p(to));
    lemma_moved_index(items, from, to);
    lemma_moved_is_permutation(items, from, to);
    let m = moved(items, from, to);
    assert(m.remove(to) =~= items.remove(from)) by {
        items.remove_ensures(from);
        m.remove_ensures(to);
        items.remove(from).insert_ensures(to, items[from]);
    }
}

/// No two tracked items of `s` stand for each other, and each stands for its own value.
pub open spec fn values_identify<T: DndItem, R, M>(s: Seq<ItemGeometry<T, R, M>>) -> bool {
    forall|i: int, j: int|
        #![trigger s[i], s[j]]
        0 <= i < s.len() && 0 <= j < s.len() ==> (s[i].value.eq_spec(&s[j].value) <==> i == j)
}

/// Where each tracked value identifies its entry, the first entry standing for
/// the value of entry `i` is `i` itself.
pub proof fn lemma_own_value_found_at_own_index<T: DndItem, R, M>(s: Seq<ItemGeometry<T, R, M>>, i: int)
    requires
        values_identify(s),
        0 <= i < s.len(),
    ensures
        first_match(s, s[i].value) == Some(i),
{
    assert(s[i].value.eq_spec(&s[i].value));
    assert forall|j: int| 0 <= j < i implies !#[trigger] match_at(s, s[i].value)(j) by {
        assert(!s[j].value.eq_spec(&s[i].value));
    }
    lemma_first_where_is(s.len() as int, match_at(s, s[i].value), i);
}

/// The drop rule: where the tracked values identify their entries and the
/// dragged item is at `from`, an entry is a drop slot exactly when it has a
/// measured box and the pointer is in its lower half with the entry after
/// `from`, or in its upper half with the entry at or before `from`.
pub proof fn lemma_drop_slot_rule<T: DndItem, R, M>(
    s: Seq<ItemGeometry<T, R, M>>,
    zones: Seq<PointerZone>,
    active: T,
    from: int,
)
    requires
        values_identify(s),
        first_match(s, active) == Some(from),
    ensures
        forall|i: int|
            0 <= i < s.len() ==> (#[trigger] drop_slot_at(s, zones, from)(i) <==> (s[i].rect is Some && (
            (zones[i] == PointerZone::AfterCenter && from < i) || (zones[i] == PointerZone::BeforeCenter
                && i <= from)))),
{
    assert forall|i: int| 0 <= i < s.len() implies (#[trigger] drop_slot_at(s, zones, from)(i) <==> (
    s[i].rect is Some && ((zones[i] == PointerZone::AfterCenter && from < i) || (zones[i]
        == PointerZone::BeforeCenter && i <= from)))) by {
        lemma_own_value_found_at_own_index(s, i);
    }
}

/// The move for one box under the pointer: where the tracked values identify
/// their entries, the dragged item is at `from`, and the pointer is inside
/// the measured box of entry `i` only, the dragged item moves to `i` when
/// the pointer is past the center of `i` in the direction of the move (below
/// it for an entry after `from`, above it for one before), and nothing moves
/// otherwise. In particular the item just above the dragged one is taken
/// from its upper half.
pub proof fn lemma_drop_single_box<T: DndItem, R, M>(
    s: Seq<ItemGeometry<T, R, M>>,
    zones: Seq<PointerZone>,
    active: T,
    from: int,
    i: int,
)
    requires
        values_identify(s),
        first_match(s, active) == Some(from),
        0 <= i < s.len(),
        s[i].rect is Some,
        forall|j: int| 0 <= j < s.len() && j != i ==> #[trigger] zones[j] == PointerZone::Outside,
    ensures
        drop_move(s, active, zones) == (if (zones[i] == PointerZone::AfterCenter && from < i) || (zones[i]
            == PointerZone::BeforeCenter && i < from) {
            Some((from, i))
        } else {
            None
        }),
{
    lemma_drop_slot_rule(s, zones, active, from);
    let p = drop_slot_at(s, zones, from);
    assert(index_or_zero(first_match(s, active)) == from);
    assert forall|j: int| 0 <= j < s.len() && j != i implies !#[trigger] p(j) by {
        assert(zones[j] == PointerZone::Outside);
    }
    if p(i) {
        lemma_first_where_is(s.len() as int, p, i);
    } else {
        assert forall|j: int| 0 <= j < s.len() implies !#[trigger] p(j) by {}
        lemma_first_where_none(s.len() as int, p);
    }
}

/// Whether, under the drop rule, entry `i` takes an item dragged from `from`.
pub open spec fn takes_drop_from<T, R, M>(
    s: Seq<ItemGeometry<T, R, M>>,
    zones: Seq<PointerZone>,
    from: int,
    i: int,
) -> bool {
    s[i].rect is Some && ((zones[i] == PointerZone::AfterCenter && from < i) || (zones[i]
        == PointerZone::BeforeCenter && i <= from))
}

/// The drop decision in general: where the tracked values identify their
/// entries and the dragged item is at `from`, the move goes to `to` exactly
/// when `to` is the first entry that takes the drop and differs from `from`.
pub proof fn lemma_drop_target_rule<T: DndItem, R, M>(
    s: Seq<ItemGeometry<T, R, M>>,
    zones: Seq<PointerZone>,
    active: T,
    from: int,
    to: int,
)
    requires
        values_identify(s),
        first_match(s, active) == Some(from),
    ensures
        drop_move(s, active, zones) == Some((from, to)) <==> {
            &&& 0 <= to < s.len()
            &&& to != from
            &&& takes_drop_from(s, zones, from, to)
            &&& forall|j: int| 0 <= j < to ==> !#[trigger] takes_drop_from(s, zones, from, j)
        },
{
    lemma_drop_slot_rule(s, zones, active, from);
    let p = drop_slot_at(s, zones, from);
    assert(index_or_zero(first_match(s, active)) == from);
    if 0 <= to < s.len() && to != from && takes_drop_from(s, zones, from, to) && forall|j: int|
        0 <= j < to ==> !#[trigger] takes_drop_from(s, zones, from, j) {
        assert forall|j: int| 0 <= j < to implies !#[trigger] p(j) by {
            assert(!takes_drop_from(s, zones, from, j));
        }
        lemma_first_where_is(s.len() as int, p, to);
    }
    if drop_move(s, active, zones) == Some((from, to)) {
        let t = first_where(s.len() as int, p);
        assert(t == Some(to));
        assert(is_first_where(s.len() as int, p, to));
        assert forall|j: int| 0 <= j < to implies !#[trigger] takes_drop_from(s, zones, from, j) by {
            assert(!p(j));
        }
    }
}

/// Taking out an entry that does not stand for `x` changes neither whether
/// some entry stands for `x` nor which entry is the first to.
pub proof fn lemma_first_match_after_remove<T: DndItem, R, M>(
    s: Seq<ItemGeometry<T, R, M>>,
    j: int,
    x: T,
)
    requires
        0 <= j < s.len(),
        !matches_item(s[j], x),
    ensures
        (first_match(s, x) is None) == (first_match(s.remove(j), x) is None),
        first_match(s, x) is Some ==> s.remove(j)[first_match(s.remove(j), x).unwrap()] == s[first_match(
            s,
            x,
        ).unwrap()],
{
    let t = s.remove(j);
    s.remove_ensures(j);
    if first_match(s, x) is Some {
        let i1 = first_match(s, x).unwrap();
        assert(is_first_where(s.len() as int, match_at(s, x), i1));
        assert(i1 != j);
        let i2 = if i1 < j { i1 } else { i1 - 1 };
        assert(t[i2] == s[i1]);
        assert forall|k: int| 0 <= k < i2 implies !#[trigger] match_at(t, x)(k) by {
            if k < j {
                assert(t[k] == s[k]);
                assert(!match_at(s, x)(k));
            } else {
                assert(t[k] == s[k + 1]);
                assert(!match_at(s, x)(k + 1));
            }
        }
        assert(match_at(t, x)(i2));
        lemma_first_where_is(t.len() as int, match_at(t, x), i2);
    } else {
        assert forall|k: int| 0 <= k < t.len() implies !#[trigger] match_at(t, x)(k) by {
            let src = if k < j { k } else { k + 1 };
            assert(t[k] == s[src]);
            if match_at(s, x)(src) {
                lemma_first_where_some(s.len() as int, match_at(s, x), src);
            }
        }
        lemma_first_where_none(t.len() as int, match_at(t, x));
    }
}

/// The re-layout keeps every surviving entry: for pairwise distinct items,
/// the entry laid out for item `k` is the first tracked entry that stands
/// for it, with its box and handle, whatever other items were added, dropped
/// or moved; an item that no tracked entry stands for is tracked afresh.
pub proof fn lemma_relayout_keeps_surviving_entries<T: DndItem, R, M>(
    pool: Seq<ItemGeometry<T, R, M>>,
    items: Seq<T>,
)
    requires
        obeys_eq::<T>(),
        forall|a: int, b: int|
            #![trigger items[a], items[b]]
            0 <= a < items.len() && 0 <= b < items.len() && a != b ==> !items[a].eq_spec(&items[b]),
    ensures
        reordered(pool, items).len() == items.len(),
        forall|k: int|
            0 <= k < items.len() && #[trigger] first_match(pool, items[k]) is Some ==> reordered(pool, items)[k]
                == pool[first_match(pool, items[k]).unwrap()],
        forall|k: int|
            0 <= k < items.len() && #[trigger] first_match(pool, items[k]) is None ==> reordered(pool, items)[k]
                == untracked::<T, R, M>(items[k]),
    decreases items.len(),
{
    reveal(obeys_eq_spec_properties);
    lemma_reordered_follows_items(pool, items);
    if items.len() > 0 {
        let x = items[0];
        let tail = items.drop_first();
        assert forall|a: int, b: int|
            #![trigger tail[a], tail[b]]
            0 <= a < tail.len() && 0 <= b < tail.len() && a != b implies !tail[a].eq_spec(&tail[b]) by {
            assert(tail[a] == items[a + 1] && tail[b] == items[b + 1]);
        }
        let r = reordered(pool, items);
        match first_match(pool, x) {
            Some(j) => {
                lemma_first_match_holds(pool, x);
                let rest = pool.remove(j);
                lemma_relayout_keeps_surviving_entries(rest, tail);
                assert forall|k: int| 1 <= k < items.len() implies !matches_item(pool[j], #[trigger] items[k]) by {
                    assert(!x.eq_spec(&items[k]));
                    if pool[j].value.eq_spec(&items[k]) {
                        assert(x.eq_spec(&pool[j].value));
                    }
                }
                assert forall|k: int|
                    0 <= k < items.len() && #[trigger] first_match(pool, items[k]) is Some implies r[k]
                    == pool[first_match(pool, items[k]).unwrap()] by {
                    if k > 0 {
                        assert(tail[k - 1] == items[k]);
                        lemma_first_match_after_remove(pool, j, items[k]);
                    }
                }
                assert forall|k: int|
                    0 <= k < items.len() && #[trigger] first_match(pool, items[k]) is None implies r[k]
                    == untracked::<T, R, M>(items[k]) by {
                    if k > 0 {
                        assert(tail[k - 1] == items[k]);
                        lemma_first_match_after_remove(pool, j, items[k]);
                    }
                }
            },
            None => {
                lemma_relayout_keeps_surviving_entries(pool, tail);
                assert forall|k: int|
                    0 <= k < items.len() && #[trigger] first_match(pool, items[k]) is Some implies r[k]
                    == pool[first_match(pool, items[k]).unwrap()] by {
                    if k > 0 {
                        assert(tail[k - 1] == items[k]);
                    }
                }
                assert forall|k: int|
                    0 <= k < items.len() && #[trigger] first_match(pool, items[k]) is None implies r[k]
                    == untracked::<T, R, M>(items[k]) by {
                    if k > 0 {
                        assert(tail[k - 1] == items[k]);
                    }
                }
            },
        }
    }
}

/// Registering a handle: the first tracked entry that stands for `x` holds
/// `m` afterwards, whatever handle it held before, with its value and box
/// kept; every other entry is unchanged; with no such entry nothing changes.
pub proof fn lemma_register_sets_handle<T: DndItem, R, M>(s: Seq<ItemGeometry<T, R, M>>, x: T, m: M)
    ensures
        registered(s, x, m).len() == s.len(),
        first_match(s, x) is None ==> registered(s, x, m) == s,
        first_match(s, x) matches Some(i) ==> {
            &&& registered(s, x, m)[i].mounted == Some(m)
            &&& registered(s, x, m)[i].value == s[i].value
            &&& registered(s, x, m)[i].rect == s[i].rect
            &&& forall|j: int| 0 <= j < s.len() && j != i ==> #[trigger] registered(s, x, m)[j] == s[j]
        },
{
    if first_match(s, x) is Some {
        lemma_first_match_holds(s, x);
    }
}

/// Registering again replaces the handle: registering `m1` then `m2` for the
/// same value is the same as registering `m2` alone.
pub proof fn lemma_register_again_replaces<T: DndItem, R, M>(
    s: Seq<ItemGeometry<T, R, M>>,
    x: T,
    m1: M,
    m2: M,
)
    ensures
        registered(registered(s, x, m1), x, m2) == registered(s, x, m2),
{
    let t = registered(s, x, m1);
    lemma_register_sets_handle(s, x, m1);
    assert forall|k: int| 0 <= k < s.len() implies #[trigger] match_at(t, x)(k) == match_at(s, x)(k) by {
        assert(t[k].value == s[k].value);
    }
    if first_match(s, x) is Some {
        let i = first_match(s, x).unwrap();
        assert(is_first_where(s.len() as int, match_at(s, x), i));
        assert forall|k: int| 0 <= k < i implies !#[trigger] match_at(t, x)(k) by {
            assert(!match_at(s, x)(k));
        }
        lemma_first_where_is(t.len() as int, match_at(t, x), i);
    } else {
        assert forall|k: int| 0 <= k < t.len() implies !#[trigger] match_at(t, x)(k) by {
            if match_at(s, x)(k) {
                lemma_first_where_some(s.len() as int, match_at(s, x), k);
            }
        }
        lemma_first_where_none(t.len() as int, match_at(t, x));
    }
    assert(first_match(t, x) == first_match(s, x));
    lemma_register_sets_handle(t, x, m2);
    lemma_register_sets_handle(s, x, m2);
    assert(registered(t, x, m2) =~= registered(s, x, m2));
}

} // verus!
