use dioxus_dnd_kit::context::{DndContext, LANDING_DELAY_MS};

type Session = DndContext<String, u32, u32>;

#[test]
fn new_session_is_idle() {
    let s = Session::new();
    assert!(s.active.is_none() && s.active_rect.is_none() && s.active_mounted.is_none());
    assert!(!s.is_floating_ready);
    assert!(!s.is_dragging());
}

#[test]
fn pointer_down_with_container_starts_drag() {
    let mut s = Session::new();
    let to_measure = s.on_pointer_down("a".to_string(), Some(4));
    assert_eq!(to_measure, Some(4));
    assert_eq!(s.active, Some("a".to_string()));
    assert!(s.is_dragging());
    assert!(s.is_active(&"a".to_string()));
    assert!(!s.is_active(&"b".to_string()));
}

#[test]
fn pointer_down_without_container_starts_nothing() {
    let mut s = Session::new();
    assert_eq!(s.on_pointer_down("a".to_string(), None), None);
    assert!(s.active.is_none());
}

#[test]
fn measured_grab_records_box_and_handle() {
    let mut s = Session::new();
    s.on_pointer_down("a".to_string(), Some(4));
    s.on_grab_measured(4, 120);
    assert_eq!(s.active_rect, Some(120));
    assert_eq!(s.active_mounted, Some(4));
}

#[test]
fn element_hides_only_once_overlay_is_placed() {
    let mut s = Session::new();
    s.on_pointer_down("a".to_string(), Some(4));
    assert!(!s.is_ready_to_hide(&"a".to_string()));
    s.on_overlay_placed();
    assert!(s.is_ready_to_hide(&"a".to_string()));
    assert!(!s.is_ready_to_hide(&"b".to_string()));
}

#[test]
fn release_then_landing_returns_to_idle() {
    let mut s = Session::new();
    s.on_pointer_down("a".to_string(), Some(4));
    s.on_grab_measured(4, 120);
    s.on_overlay_placed();
    let delay = s.on_pointer_released();
    assert_eq!(delay, 50);
    assert_eq!(LANDING_DELAY_MS, 50);
    assert_eq!(s.active, Some("a".to_string()));
    assert_eq!(s.active_rect, Some(120));
    assert!(!s.is_ready_to_hide(&"a".to_string()));
    s.on_landed();
    assert!(s.active.is_none() && s.active_rect.is_none() && s.active_mounted.is_none());
    assert!(!s.is_floating_ready);
}
