//! The state of a drag-and-drop session and the transitions that the pointer
//! and the floating overlay drive it through.
use vstd::prelude::*;
use crate::DndItem;
use vstd::std_specs::cmp::PartialEqSpec;

verus! {

/// Milliseconds between the release of the pointer and the end of the
/// session, so that the lifted item lands without a layout flicker.
pub const LANDING_DELAY_MS: u32 = 50;

/// State of a drag-and-drop session: the dragged item, with the box (`R`) and
/// the handle (`M`) of its element as measured when it was grabbed.
#[derive(Debug)]
pub struct DndContext<T, R, M> {
    /// Current active (dragged) item.
    pub active: Option<T>,
    /// Box of the active item before it was lifted.
    pub active_rect: Option<R>,
    /// Handle of the mounted element of the active item.
    pub active_mounted: Option<M>,
    /// Whether the floating overlay is placed and shown.
    pub is_floating_ready: bool,
}

impl<T: DndItem, R, M> DndContext<T, R, M> {
    /// The session with nothing dragged.
    pub open spec fn idle() -> Self {
        DndContext { active: None, active_rect: None, active_mounted: None, is_floating_ready: false }
    }

    /// After the pointer goes down on the handle of `item`, whose element
    /// container is `container` (`None` where it is not mounted): with a
    /// container, `item` becomes the active item; without one, nothing changes.
    pub open spec fn grabbed(self, item: T, container: Option<M>) -> Self {
        if container is Some {
            DndContext { active: Some(item), ..self }
        } else {
            self
        }
    }

    /// After the grabbed container `mounted` has been measured at `rect`.
    pub open spec fn measured(self, mounted: M, rect: R) -> Self {
        DndContext { active_mounted: Some(mounted), active_rect: Some(rect), ..self }
    }

    /// After the overlay has been placed at the pointer.
    pub open spec fn overlay_placed(self) -> Self {
        DndContext { is_floating_ready: true, ..self }
    }

    /// After the pointer is released anywhere: the overlay is no longer ready.
    pub open spec fn released(self) -> Self {
        DndContext { is_floating_ready: false, ..self }
    }

    /// After the landing delay that follows a release: nothing is dragged.
    pub open spec fn landed(self) -> Self {
        DndContext { active: None, active_mounted: None, active_rect: None, ..self }
    }

    /// Whether `x` is the dragged item, as `active == x` decides.
    pub open spec fn drags(self, x: T) -> bool {
        self.active matches Some(a) && a.eq_spec(&x)
    }

    /// Whether the element of `x` gives way to the overlay: `x` is dragged
    /// and the overlay is placed.
    pub open spec fn hides(self, x: T) -> bool {
        self.drags(x) && self.is_floating_ready
    }

    /// A session with nothing dragged.
    pub fn new() -> (r: Self)
        ensures
            r == Self::idle(),
    {
        DndContext { active: None, active_rect: None, active_mounted: None, is_floating_ready: false }
    }

    /// The pointer went down on the handle of `item`; `container` is the
    /// mounted container of its element, if any. Returns the handle to
    /// measure, which is `container`.
    pub fn on_pointer_down(&mut self, item: T, container: Option<M>) -> (to_measure: Option<M>)
        ensures
            *final(self) == old(self).grabbed(item, container),
            to_measure == container,
    {
        if container.is_some() {
            self.active = Some(item);
        }
        container
    }

    /// The grabbed container `mounted` was measured at `rect`.
    pub fn on_grab_measured(&mut self, mounted: M, rect: R)
        ensures
            *final(self) == old(self).measured(mounted, rect),
    {
        self.active_mounted = Some(mounted);
        self.active_rect = Some(rect);
    }

    /// The overlay found its place at the pointer.
    pub fn on_overlay_placed(&mut self)
        ensures
            *final(self) == old(self).overlay_placed(),
    {
        self.is_floating_ready = true;
    }

    /// The pointer was released. Returns the delay, in milliseconds, after
    /// which `on_landed` ends the session.
    pub fn on_pointer_released(&mut self) -> (delay_ms: u32)
        ensures
            *final(self) == old(self).released(),
            delay_ms == LANDING_DELAY_MS,
    {
        self.is_floating_ready = false;
        LANDING_DELAY_MS
    }

    /// The landing delay has passed.
    pub fn on_landed(&mut self)
        ensures
            *final(self) == old(self).landed(),
    {
        self.active = None;
        self.active_mounted = None;
        self.active_rect = None;
    }

    /// Whether an item is being dragged (text selection is locked meanwhile).
    pub fn is_dragging(&self) -> (r: bool)
        ensures
            r == self.active is Some,
    {
        self.active.is_some()
    }

    /// Whether `item` is the dragged item.
    pub fn is_active(&self, item: &T) -> (r: bool)
        ensures
            T::obeys_eq_spec() ==> r == self.drags(*item),
            self.active is None ==> !r,
    {
        match &self.active {
            Some(a) => *a == *item,
            None => false,
        }
    }

    /// Whether the element of `item` gives way to the overlay.
    pub fn is_ready_to_hide(&self, item: &T) -> (r: bool)
        ensures
            T::obeys_eq_spec() ==> r == self.hides(*item),
            r ==> self.is_floating_ready && self.active is Some,
    {
        self.is_active(item) && self.is_floating_ready
    }
}

/// The landing law: a release followed by the landing delay always brings a
/// session back to its initial state, whatever it was.
pub proof fn lemma_release_then_landing_is_idle<T: DndItem, R, M>(s: DndContext<T, R, M>)
    ensures
        s.released().landed() == DndContext::<T, R, M>::idle(),
{
}

/// Smooth landing: until the landing delay has passed, a release keeps the
/// dragged item and its measured box, and no element gives way to the overlay.
pub proof fn lemma_release_keeps_drag<T: DndItem, R, M>(s: DndContext<T, R, M>, x: T)
    ensures
        s.released().active == s.active,
        s.released().active_rect == s.active_rect,
        s.released().active_mounted == s.active_mounted,
        !s.released().hides(x),
{
}

/// Only a dragged item gives way to the overlay.
pub proof fn lemma_hidden_only_when_dragged<T: DndItem, R, M>(s: DndContext<T, R, M>, x: T)
    ensures
        s.hides(x) ==> s.drags(x),
{
}

/// A pointer going down where no container is mounted starts nothing.
pub proof fn lemma_grab_needs_container<T: DndItem, R, M>(s: DndContext<T, R, M>, item: T)
    ensures
        s.grabbed(item, None) == s,
{
}

/// Only the placement of the overlay makes a lifted element give way: a grab
/// and a measurement leave the overlay's readiness as it was, so from the
/// initial state they hide nothing.
pub proof fn lemma_grab_hides_nothing_before_overlay<T: DndItem, R, M>(
    item: T,
    container: M,
    rect: R,
    x: T,
)
    ensures
        !DndContext::<T, R, M>::idle().grabbed(item, Some(container)).measured(container, rect).hides(x),
        DndContext::<T, R, M>::idle().grabbed(item, Some(container)).measured(container, rect).active
            == Some(item),
{
}

/// Who hides: the element of `x` gives way to the overlay exactly when the
/// active item is `== x` and the overlay is placed, whatever box was measured
/// for the grab; recording the grab's measurement never changes it.
pub proof fn lemma_hide_rule<T: DndItem, R, M>(s: DndContext<T, R, M>, x: T, m: M, r: R)
    ensures
        s.hides(x) <==> (s.active matches Some(a) && a.eq_spec(&x) && s.is_floating_ready),
        s.drags(x) <==> (s.active matches Some(a) && a.eq_spec(&x)),
        s.measured(m, r).hides(x) == s.hides(x),
        s.measured(m, r).drags(x) == s.drags(x),
{
}

/// The normal flow hides the grabbed element: from any session, grabbing `x`
/// with a mounted container, recording its measurement and placing the
/// overlay makes `x`'s element give way (for an `==` under which `x` equals itself).
pub proof fn lemma_grab_measure_place_hides<T: DndItem, R, M>(s: DndContext<T, R, M>, x: T, c: M, r: R)
    requires
        x.eq_spec(&x),
    ensures
        s.grabbed(x, Some(c)).measured(c, r).overlay_placed().hides(x),
        s.grabbed(x, Some(c)).measured(c, r).overlay_placed().drags(x),
{
}

/// A grab with a mounted container makes exactly that item active and
/// changes nothing else; without a container nothing changes.
pub proof fn lemma_grab_fields<T: DndItem, R, M>(s: DndContext<T, R, M>, item: T, c: M)
    ensures
        s.grabbed(item, Some(c)).active == Some(item),
        s.grabbed(item, Some(c)).active_rect == s.active_rect,
        s.grabbed(item, Some(c)).active_mounted == s.active_mounted,
        s.grabbed(item, Some(c)).is_floating_ready == s.is_floating_ready,
        s.grabbed(item, None) == s,
{
}

/// Recording a grab's measurement stores exactly that handle and box and
/// changes nothing else.
pub proof fn lemma_measure_fields<T: DndItem, R, M>(s: DndContext<T, R, M>, m: M, r: R)
    ensures
        s.measured(m, r).active_mounted == Some(m),
        s.measured(m, r).active_rect == Some(r),
        s.measured(m, r).active == s.active,
        s.measured(m, r).is_floating_ready == s.is_floating_ready,
{
}

/// Placing the overlay always leaves it ready, changes nothing else, and
/// placing it again changes nothing.
pub proof fn lemma_overlay_placed_is_ready<T: DndItem, R, M>(s: DndContext<T, R, M>)
    ensures
        s.overlay_placed().is_floating_ready,
        s.overlay_placed().active == s.active,
        s.overlay_placed().active_rect == s.active_rect,
        s.overlay_placed().active_mounted == s.active_mounted,
        s.overlay_placed().overlay_placed() == s.overlay_placed(),
{
}

/// A release always leaves the overlay not ready and changes nothing else.
pub proof fn lemma_release_fields<T: DndItem, R, M>(s: DndContext<T, R, M>)
    ensures
        !s.released().is_floating_ready,
        s.released().active == s.active,
        s.released().active_rect == s.active_rect,
        s.released().active_mounted == s.active_mounted,
        s.released().released() == s.released(),
{
}

/// Landing always ends the drag (no item, box or handle) and leaves the
/// overlay's readiness as it was.
pub proof fn lemma_landing_fields<T: DndItem, R, M>(s: DndContext<T, R, M>, x: T)
    ensures
        s.landed().active is None,
        s.landed().active_rect is None,
        s.landed().active_mounted is None,
        s.landed().is_floating_ready == s.is_floating_ready,
        !s.landed().drags(x),
        !s.landed().hides(x),
{
}

} // verus!
