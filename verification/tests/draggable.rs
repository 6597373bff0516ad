use dioxus_dnd_kit::draggable::{draggable_opacity, placeholder_layout, PlaceholderLayout};

#[test]
fn placeholder_is_a_hole_when_hidden() {
    assert!(matches!(placeholder_layout(Some(3), true), PlaceholderLayout::Hole(3)));
}

#[test]
fn placeholder_reserves_space_when_in_place() {
    assert!(matches!(placeholder_layout(Some(3), false), PlaceholderLayout::Reserve(3)));
}

#[test]
fn placeholder_collapses_without_box() {
    assert!(matches!(placeholder_layout::<u8>(None, true), PlaceholderLayout::Collapsed));
    assert!(matches!(placeholder_layout::<u8>(None, false), PlaceholderLayout::Collapsed));
}

#[test]
fn opacity_follows_hiding() {
    assert_eq!(draggable_opacity(true), 0);
    assert_eq!(draggable_opacity(false), 1);
}
