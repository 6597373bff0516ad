//! Verified core of a drag-and-drop toolkit: the session state, the list of
//! tracked items with their cached geometry, and the sorting decisions.
use vstd::prelude::*;

pub mod context;
pub mod draggable;
pub mod droppable;
pub mod hooks;
pub mod laws;
pub mod search;

verus! {

/// The bound on the data carried by draggable items: comparable and cloneable.
pub trait DndItem: PartialEq + Clone + 'static {}

impl<T: PartialEq + Clone + 'static> DndItem for T {}

} // verus!
