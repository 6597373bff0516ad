//! Layout decisions for a draggable element while it is lifted.
use vstd::prelude::*;

verus! {

/// How the placeholder that keeps a draggable's place in the list is laid out.
pub enum PlaceholderLayout<R> {
    /// The element gave way to the overlay: a visible hole of the element's box.
    Hole(R),
    /// The element is in place: an invisible block at least as tall as its box.
    Reserve(R),
    /// No box is known yet: an invisible block of automatic height.
    Collapsed,
}

/// The placeholder layout for an element whose last measured box is `rect`
/// and which does (`ready_to_hide`) or does not give way to the overlay.
pub fn placeholder_layout<R>(rect: Option<R>, ready_to_hide: bool) -> (r: PlaceholderLayout<R>)
    ensures
        r == match rect {
            Some(b) => if ready_to_hide {
                PlaceholderLayout::Hole(b)
            } else {
                PlaceholderLayout::Reserve(b)
            },
            None => PlaceholderLayout::Collapsed,
        },
{
    match rect {
        Some(b) => if ready_to_hide {
            PlaceholderLayout::Hole(b)
        } else {
            PlaceholderLayout::Reserve(b)
        },
        None => PlaceholderLayout::Collapsed,
    }
}

/// The opacity of the element itself: 0 while it gives way to the overlay, 1 otherwise.
pub fn draggable_opacity(ready_to_hide: bool) -> (r: u8)
    ensures
        r == (if ready_to_hide { 0u8 } else { 1u8 }),
{
    if ready_to_hide {
        0
    } else {
        1
    }
}

} // verus!
