//! The list of items tracked by a drop zone, with the geometry cached for
//! each of them, and the sorting decisions taken while an item is dragged.
use vstd::prelude::*;
use crate::DndItem;
use crate::search::{first_where, lemma_first_where_is, lemma_first_where_none, lemma_first_where_some};
use vstd::std_specs::cmp::PartialEqSpec;

verus! {

/// One tracked item of a drop zone: the user's value, the bounding box last
/// measured for it (`R`), and the handle used to measure it again (`M`).
#[derive(Clone, Debug)]
pub struct ItemGeometry<T, R, M> {
    /// The user-provided data value.
    pub value: T,
    /// Cached bounding box, measured at the start of a drag or after a reorder.
    pub rect: Option<R>,
    /// Handle of the mounted element, used for re-measuring.
    pub mounted: Option<M>,
}

/// The elements of `v` in reverse order, so that popping yields them first to last.
pub(crate) fn reversed<X>(v: Vec<X>) -> (r: Vec<X>)
    ensures
        r@ == v@.reverse(),
{
    let ghost n = v@.len();
    let mut pending = v;
    let mut stack: Vec<X> = Vec::new();
    while pending.len() > 0
        invariant
            pending@.len() + stack@.len() == n,
            n == v@.len(),
            pending@ == v@.take(pending@.len() as int),
            stack@ == v@.skip(pending@.len() as int).reverse(),
        decreases pending.len(),
    {
        let ghost m = pending@.len() as int;
        let x = pending.pop().unwrap();
        stack.push(x);
        proof {
            assert(pending@ =~= v@.take(m - 1));
            assert(stack@ =~= v@.skip(m - 1).reverse());
        }
    }
    proof {
        assert(v@.skip(0) =~= v@);
    }
    stack
}

/// A freshly tracked item: nothing measured, nothing mounted yet.
pub open spec fn untracked<T, R, M>(value: T) -> ItemGeometry<T, R, M> {
    ItemGeometry { value, rect: None, mounted: None }
}

/// Whether the tracked item `e` stands for the value `x`, as `e.value == x` decides.
pub open spec fn matches_item<T: DndItem, R, M>(e: ItemGeometry<T, R, M>, x: T) -> bool {
    e.value.eq_spec(&x)
}

/// The predicate "the item at index `i` of `s` stands for `x`".
pub open spec fn match_at<T: DndItem, R, M>(s: Seq<ItemGeometry<T, R, M>>, x: T) -> spec_fn(int) -> bool {
    |i: int| matches_item(s[i], x)
}

/// The index of the first tracked item of `s` that stands for `x`, if any.
pub open spec fn first_match<T: DndItem, R, M>(s: Seq<ItemGeometry<T, R, M>>, x: T) -> Option<int> {
    first_where(s.len() as int, match_at(s, x))
}

/// `Option<usize>` read as an optional mathematical index.
pub open spec fn as_index(r: Option<usize>) -> Option<int> {
    match r {
        Some(i) => Some(i as int),
        None => None,
    }
}

/// The position of the first item of `elements` whose value is `== item`.
pub fn first_position<T: DndItem, R, M>(elements: &Vec<ItemGeometry<T, R, M>>, item: &T) -> (r:
    Option<usize>)
    ensures
        r matches Some(i) ==> i < elements.len(),
        T::obeys_eq_spec() ==> as_index(r) == first_match(elements@, *item),
{
    let mut i: usize = 0;
    while i < elements.len()
        invariant
            i <= elements.len(),
            T::obeys_eq_spec() ==> forall|j: int|
                0 <= j < i ==> !#[trigger] match_at(elements@, *item)(j),
        decreases elements.len() - i,
    {
        if elements[i].value == *item {
            proof {
                if T::obeys_eq_spec() {
                    lemma_first_where_is(elements@.len() as int, match_at(elements@, *item), i as int);
                }
            }
            return Some(i);
        }
        i = i + 1;
    }
    proof {
        if T::obeys_eq_spec() {
            lemma_first_where_none(elements@.len() as int, match_at(elements@, *item));
        }
    }
    None
}


/// The tracked list that results from laying out `items` in order over the
/// tracked items `pool`: each item takes the first still unused tracked item
/// that stands for it (keeping its geometry), or a fresh, unmeasured one.
pub open spec fn reordered<T: DndItem, R, M>(
    pool: Seq<ItemGeometry<T, R, M>>,
    items: Seq<T>,
) -> Seq<ItemGeometry<T, R, M>>
    decreases items.len(),
{
    if items.len() == 0 {
        Seq::empty()
    } else {
        match first_match(pool, items[0]) {
            Some(i) => seq![pool[i]] + reordered(pool.remove(i), items.drop_first()),
            None => seq![untracked(items[0])] + reordered(pool, items.drop_first()),
        }
    }
}

/// Whether some tracked item of `s` stands for `x`.
pub open spec fn tracks<T: DndItem, R, M>(s: Seq<ItemGeometry<T, R, M>>, x: T) -> bool {
    exists|i: int| 0 <= i < s.len() && #[trigger] match_at(s, x)(i)
}

/// `e` with `m` as its mounted handle.
pub open spec fn with_mounted<T, R, M>(e: ItemGeometry<T, R, M>, m: M) -> ItemGeometry<T, R, M> {
    ItemGeometry { value: e.value, rect: e.rect, mounted: Some(m) }
}

/// `e` with `r` as its cached bounding box.
pub open spec fn with_rect<T, R, M>(e: ItemGeometry<T, R, M>, r: R) -> ItemGeometry<T, R, M> {
    ItemGeometry { value: e.value, rect: Some(r), mounted: e.mounted }
}

/// The tracked list after the mounted handle `m` is registered for `x`: the
/// first tracked item that stands for `x` takes it; with none, nothing changes.
pub open spec fn registered<T: DndItem, R, M>(
    s: Seq<ItemGeometry<T, R, M>>,
    x: T,
    m: M,
) -> Seq<ItemGeometry<T, R, M>> {
    match first_match(s, x) {
        Some(i) => s.update(i, with_mounted(s[i], m)),
        None => s,
    }
}

/// The indices below `n` of the tracked items that have a mounted handle, in increasing order.
pub open spec fn mounted_indices<T, R, M>(s: Seq<ItemGeometry<T, R, M>>, n: int) -> Seq<int>
    decreases n,
{
    if n <= 0 {
        Seq::empty()
    } else if s[n - 1].mounted is Some {
        mounted_indices(s, n - 1).push(n - 1)
    } else {
        mounted_indices(s, n - 1)
    }
}

/// The tracked list after the measured boxes `results` are stored, first to
/// last: each pair `(i, r)` with `i` in range sets the box of item `i` to `r`.
pub open spec fn measured<T, R, M>(
    s: Seq<ItemGeometry<T, R, M>>,
    results: Seq<(usize, R)>,
) -> Seq<ItemGeometry<T, R, M>>
    decreases results.len(),
{
    if results.len() == 0 {
        s
    } else {
        let prev = measured(s, results.drop_last());
        let (i, r) = results.last();
        if i < prev.len() {
            prev.update(i as int, with_rect(prev[i as int], r))
        } else {
            prev
        }
    }
}

/// `s` with the element at `from` taken out and put back in at `to`.
pub open spec fn moved<X>(s: Seq<X>, from: int, to: int) -> Seq<X> {
    s.remove(from).insert(to, s[from])
}

/// Moves the element at `from` so that it stands at `to`: it is removed,
/// then inserted at `to` in what is left.
pub fn move_item<X>(items: &mut Vec<X>, from: usize, to: usize)
    requires
        from < old(items).len(),
        to < old(items).len(),
    ensures
        final(items)@ == moved(old(items)@, from as int, to as int),
{
    let item = items.remove(from);
    items.insert(to, item);
}

/// Where the pointer stands relative to the cached box of one tracked item.
#[derive(Clone, Copy, Debug, PartialEq, Eq, Structural)]
pub enum PointerZone {
    /// No box is cached, or the pointer is outside it.
    Outside,
    /// Inside the box, above its horizontal center line.
    BeforeCenter,
    /// Inside the box, exactly on its horizontal center line.
    OnCenter,
    /// Inside the box, below its horizontal center line.
    AfterCenter,
}

/// Whether a box in `zone` is where the dragged item goes: coming from an
/// earlier position it must be passed below its center, coming from a later
/// (or the same) position it must be passed above its center.
pub open spec fn zone_takes_drop(zone: PointerZone, comes_from_earlier: bool) -> bool {
    match zone {
        PointerZone::BeforeCenter => !comes_from_earlier,
        PointerZone::AfterCenter => comes_from_earlier,
        _ => false,
    }
}

/// `r`, or 0 where it is `None`.
pub open spec fn index_or_zero(r: Option<int>) -> int {
    match r {
        Some(i) => i,
        None => 0,
    }
}

/// The predicate "tracked item `i` is a drop slot for an item dragged from
/// `from`": it has a measured box, and the pointer stands in the part of it
/// that takes the drop.
pub open spec fn drop_slot_at<T: DndItem, R, M>(
    s: Seq<ItemGeometry<T, R, M>>,
    zones: Seq<PointerZone>,
    from: int,
) -> spec_fn(int) -> bool {
    |i: int|
        s[i].rect is Some && zone_takes_drop(zones[i], from < index_or_zero(first_match(s, s[i].value)))
}

/// The move that dragging `active` over `zones` calls for: from the first
/// tracked item that stands for `active` to the first drop slot, where both
/// exist and differ.
pub open spec fn drop_move<T: DndItem, R, M>(
    s: Seq<ItemGeometry<T, R, M>>,
    active: T,
    zones: Seq<PointerZone>,
) -> Option<(int, int)> {
    let from = first_match(s, active);
    let to = first_where(s.len() as int, drop_slot_at(s, zones, index_or_zero(from)));
    match (from, to) {
        (Some(f), Some(t)) => if f != t { Some((f, t)) } else { None },
        _ => None,
    }
}

/// `Option<(usize, usize)>` read as an optional pair of mathematical indices.
pub open spec fn as_index_pair(r: Option<(usize, usize)>) -> Option<(int, int)> {
    match r {
        Some((a, b)) => Some((a as int, b as int)),
        None => None,
    }
}

/// The items of a drop zone, in their displayed order, with cached geometry.
#[derive(Debug)]
pub struct DroppableContext<T, R, M> {
    /// Tracked items and their last measured screen positions.
    pub elements: Vec<ItemGeometry<T, R, M>>,
}

impl<T: DndItem, R, M> DroppableContext<T, R, M> {
    /// A drop zone that tracks nothing yet.
    pub fn new() -> (r: Self)
        ensures
            r.elements@ == Seq::<ItemGeometry<T, R, M>>::empty(),
    {
        DroppableContext { elements: Vec::new() }
    }

    /// Whether some tracked item is `== item`.
    pub fn has_element(&self, item: &T) -> (r: bool)
        ensures
            T::obeys_eq_spec() ==> r == tracks(self.elements@, *item),
    {
        let found = first_position(&self.elements, item);
        proof {
            if T::obeys_eq_spec() {
                if tracks(self.elements@, *item) {
                    let i = choose|i: int|
                        0 <= i < self.elements@.len() && #[trigger] match_at(self.elements@, *item)(i);
                    lemma_first_where_some(self.elements@.len() as int, match_at(self.elements@, *item), i);
                }
            }
        }
        found.is_some()
    }

    /// Records `mounted` as the handle of the first tracked item `== item`;
    /// where there is none, nothing changes.
    pub fn register_element_mounted(&mut self, item: T, mounted: M)
        ensures
            final(self).elements@.len() == old(self).elements@.len(),
            forall|j: int|
                0 <= j < old(self).elements@.len() ==> (#[trigger] final(self).elements@[j]).value
                    == old(self).elements@[j].value && final(self).elements@[j].rect == old(
                    self,
                ).elements@[j].rect,
            T::obeys_eq_spec() ==> final(self).elements@ == registered(old(self).elements@, item, mounted),
    {
        match first_position(&self.elements, &item) {
            Some(index) => {
                let mut e = self.elements.remove(index);
                e.mounted = Some(mounted);
                self.elements.insert(index, e);
                proof {
                    if T::obeys_eq_spec() {
                        assert(self.elements@ =~= registered(old(self).elements@, item, mounted));
                    }
                }
            },
            None => {},
        }
    }

    /// The index of each tracked item that has a mounted handle, in order,
    /// with a clone of that handle: the items to measure.
    pub fn measurement_targets(&self) -> (r: Vec<(usize, M)>)
        where M: Clone,
        ensures
            r@.map_values(|p: (usize, M)| p.0 as int) == mounted_indices(self.elements@, self.elements@.len() as int),
            forall|k: int| 0 <= k < r@.len() ==> {
                let (i, m) = #[trigger] r@[k];
                &&& i < self.elements@.len()
                &&& self.elements@[i as int].mounted matches Some(h) && cloned(h, m)
            },
    {
        let mut r: Vec<(usize, M)> = Vec::new();
        let mut i: usize = 0;
        while i < self.elements.len()
            invariant
                i <= self.elements@.len(),
                r@.map_values(|p: (usize, M)| p.0 as int) == mounted_indices(self.elements@, i as int),
                forall|k: int| 0 <= k < r@.len() ==> {
                    let (j, m) = #[trigger] r@[k];
                    &&& j < self.elements@.len()
                    &&& self.elements@[j as int].mounted matches Some(h) && cloned(h, m)
                },
            decreases self.elements@.len() - i,
        {
            match &self.elements[i].mounted {
                Some(m) => {
                    let h = m.clone();
                    r.push((i, h));
                    proof {
                        assert(r@.map_values(|p: (usize, M)| p.0 as int) =~= mounted_indices(self.elements@, i as int).push(i as int));
                    }
                },
                None => {},
            }
            i = i + 1;
        }
        r
    }

    /// Stores the measured boxes, first to last: `(i, r)` sets the box of
    /// tracked item `i` to `r`, and is ignored where `i` is out of range.
    pub fn apply_measured_rects(&mut self, results: Vec<(usize, R)>)
        ensures
            final(self).elements@ == measured(old(self).elements@, results@),
    {
        let n: usize = results.len();
        let mut rest = reversed(results);
        let mut done: usize = 0;
        proof {
            assert(results@.take(0) =~= Seq::<(usize, R)>::empty());
        }
        while rest.len() > 0
            invariant
                done + rest@.len() == n,
                n == results@.len(),
                rest@ == results@.skip(done as int).reverse(),
                self.elements@ == measured(old(self).elements@, results@.take(done as int)),
            decreases rest.len(),
        {
            let (index, rect) = rest.pop().unwrap();
            proof {
                assert(results@.skip(done as int)[0] == (index, rect));
                assert(results@.take(done + 1).drop_last() =~= results@.take(done as int));
                assert(results@.take(done + 1).last() == (index, rect));
            }
            if index < self.elements.len() {
                let mut e = self.elements.remove(index);
                e.rect = Some(rect);
                self.elements.insert(index, e);
            }
            proof {
                assert(rest@ =~= results@.skip(done + 1).reverse());
                assert(self.elements@ =~= measured(old(self).elements@, results@.take(done + 1)));
            }
            done = done + 1;
        }
        proof {
            assert(results@.take(n as int) =~= results@);
        }
    }

    /// Whether the dragged item, if any, is one of this zone's items.
    pub fn contains_active(&self, active: &Option<T>) -> (r: bool)
        ensures
            *active is None ==> !r,
            T::obeys_eq_spec() ==> r == (*active matches Some(a) && tracks(self.elements@, a)),
    {
        match active {
            Some(a) => self.has_element(a),
            None => false,
        }
    }

    /// The first tracked item that is a drop slot for an item dragged from `from`.
    fn first_drop_slot(&self, from: usize, zones: &Vec<PointerZone>) -> (r: Option<usize>)
        requires
            zones@.len() == self.elements@.len(),
        ensures
            r matches Some(i) ==> i < self.elements@.len() && self.elements@[i as int].rect is Some
                && (zones@[i as int] is BeforeCenter || zones@[i as int] is AfterCenter),
            T::obeys_eq_spec() ==> as_index(r) == first_where(
                self.elements@.len() as int,
                drop_slot_at(self.elements@, zones@, from as int),
            ),
    {
        let ghost p = drop_slot_at(self.elements@, zones@, from as int);
        let mut i: usize = 0;
        while i < self.elements.len()
            invariant
                i <= self.elements@.len(),
                zones@.len() == self.elements@.len(),
                p == drop_slot_at(self.elements@, zones@, from as int),
                T::obeys_eq_spec() ==> forall|j: int| 0 <= j < i ==> !#[trigger] p(j),
            decreases self.elements@.len() - i,
        {
            let here = match first_position(&self.elements, &self.elements[i].value) {
                Some(h) => h,
                None => 0,
            };
            let comes_from_earlier = from < here;
            let takes = self.elements[i].rect.is_some() && match zones[i] {
                PointerZone::BeforeCenter => !comes_from_earlier,
                PointerZone::AfterCenter => comes_from_earlier,
                _ => false,
            };
            if takes {
                proof {
                    if T::obeys_eq_spec() {
                        lemma_first_where_is(self.elements@.len() as int, p, i as int);
                    }
                }
                return Some(i);
            }
            i = i + 1;
        }
        proof {
            if T::obeys_eq_spec() {
                lemma_first_where_none(self.elements@.len() as int, p);
            }
        }
        None
    }

    /// The reorder that the pointer calls for while `active` is dragged:
    /// `zones[i]` says where the pointer stands over tracked item `i`. The
    /// result `(from, to)` moves the item at `from` to `to`.
    pub fn drop_target(&self, active: &T, zones: &Vec<PointerZone>) -> (r: Option<(usize, usize)>)
        requires
            zones@.len() == self.elements@.len(),
        ensures
            r matches Some((from, to)) ==> from < self.elements@.len() && to < self.elements@.len()
                && from != to && self.elements@[to as int].rect is Some && (zones@[to as int] is BeforeCenter
                || zones@[to as int] is AfterCenter),
            (forall|i: int| 0 <= i < zones@.len() ==> #[trigger] zones@[i] == PointerZone::Outside)
                ==> r is None,
            (forall|i: int| 0 <= i < self.elements@.len() ==> (#[trigger] self.elements@[i]).rect is None)
                ==> r is None,
            T::obeys_eq_spec() ==> as_index_pair(r) == drop_move(self.elements@, *active, zones@),
    {
        let from = first_position(&self.elements, active);
        let from_or_zero = match from {
            Some(f) => f,
            None => 0,
        };
        let to = self.first_drop_slot(from_or_zero, zones);
        match (from, to) {
            (Some(f), Some(t)) => if f != t {
                Some((f, t))
            } else {
                None
            },
            _ => None,
        }
    }

    /// Lays the tracked items out in the order of `items`: an item keeps the
    /// geometry of the first not yet used tracked item that is `==` to it;
    /// an item with none is tracked afresh; tracked items left over are dropped.
    pub fn update_elements_order(&mut self, items: Vec<T>)
        ensures
            final(self).elements@.len() == items@.len(),
            forall|k: int|
                0 <= k < items@.len() && ((#[trigger] final(self).elements@[k]).rect is Some
                    || final(self).elements@[k].mounted is Some) ==> old(self).elements@.contains(
                    final(self).elements@[k],
                ),
            forall|k: int|
                0 <= k < items@.len() ==> #[trigger] final(self).elements@[k] == untracked::<T, R, M>(
                    items@[k],
                ) || old(self).elements@.contains(final(self).elements@[k]),
            T::obeys_eq_spec() ==> final(self).elements@ == reordered(old(self).elements@, items@),
    {
        let ghost old_elements = self.elements@;
        let mut pool: Vec<ItemGeometry<T, R, M>> = Vec::new();
        std::mem::swap(&mut pool, &mut self.elements);
        let mut laid: Vec<ItemGeometry<T, R, M>> = Vec::new();
        let ghost n = items@.len();
        // Stack the items so that popping yields them in their given order.
        let mut rest = reversed(items);
        proof {
            assert(items@.skip(0) =~= items@);
        }
        while rest.len() > 0
            invariant
                laid@.len() + rest@.len() == n,
                n == items@.len(),
                rest@ == items@.skip(laid@.len() as int).reverse(),
                T::obeys_eq_spec() ==> laid@ + reordered(pool@, items@.skip(laid@.len() as int))
                    == reordered(old_elements, items@),
                forall|i: int| 0 <= i < pool@.len() ==> old_elements.contains(#[trigger] pool@[i]),
                forall|k: int|
                    0 <= k < laid@.len() ==> #[trigger] laid@[k] == untracked::<T, R, M>(items@[k])
                        || old_elements.contains(laid@[k]),
            decreases rest.len(),
        {
            let item = rest.pop().unwrap();
            let ghost k = laid@.len() as int;
            proof {
                assert(items@.skip(k)[0] == item);
                assert(items@.skip(k).drop_first() =~= items@.skip(k + 1));
            }
            match first_position(&pool, &item) {
                Some(pos) => {
                    let ghost before = pool@;
                    let e = pool.remove(pos);
                    laid.push(e);
                    proof {
                        assert(old_elements.contains(before[pos as int]));
                        assert forall|i: int| 0 <= i < pool@.len() implies old_elements.contains(
                            #[trigger] pool@[i],
                        ) by {
                            if i < pos {
                                assert(pool@[i] == before[i]);
                            } else {
                                assert(pool@[i] == before[i + 1]);
                            }
                        }
                    }
                },
                None => {
                    laid.push(ItemGeometry { value: item, rect: None, mounted: None });
                },
            }
            proof {
                assert(rest@ =~= items@.skip(k + 1).reverse());
                if T::obeys_eq_spec() {
                    assert(laid@ + reordered(pool@, items@.skip(k + 1)) =~= reordered(old_elements, items@));
                }
            }
        }
        proof {
            assert(items@.skip(n as int) =~= Seq::<T>::empty());
            assert(laid@ =~= laid@ + reordered(pool@, items@.skip(n as int)));
        }
        self.elements = laid;
    }
}

} // verus!
