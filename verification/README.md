# dioxus-dnd-kit

Drag-and-drop sorting for Dioxus, with its decisions verified by Verus.

- `src/` — the verified library:
  - `context.rs`: the drag session (`DndContext`) and its transitions: grab,
    measurement of the grabbed element, overlay placement, release, landing.
  - `droppable.rs`: the items of a drop zone with their cached geometry
    (`DroppableContext`, `ItemGeometry`), re-layout after the items change,
    measurement bookkeeping, and the choice of the reorder while dragging.
  - `draggable.rs`: placeholder layout and opacity of a lifted element.
  - `hooks.rs`: what a window listener does with each message, and the law
    that it notifies exactly at the awaited messages before the first failure.
  - `laws.rs`: properties across operations (moves are permutations and
    undo each other; re-layout after a move keeps every item's geometry;
    re-layout with the shown items changes nothing; a proposed drop moves the
    dragged item; measuring the targets gives every mounted item exactly its
    measured box).
  - `search.rs`: "first index where" and its lemmas.
- `app/` — the Dioxus components and hooks (`DraggableView`, `Draggable`,
  `DraggableHandler`, `DraggableOverlay`, `Droppable`, window listeners), which
  hold the state in signals, do the DOM measurements and floating-point
  geometry, and call the library for every decision.
- `tests/` — tests of the library on concrete values.

Contracts that depend on `==` of the item type hold for item types whose
`==` vstd ties to its equality spec (`obeys_eq_spec`), such as the integer
types. For other item types, `String` among them, only the clauses that do
not depend on `==` are proved (lengths, indices in range, geometry never
invented, unchanged values and boxes).
