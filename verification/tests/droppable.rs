use dioxus_dnd_kit::droppable::{move_item, DroppableContext, ItemGeometry, PointerZone};

fn zone_with(values: &[&str]) -> DroppableContext<String, u32, u32> {
    let mut ctx = DroppableContext::new();
    ctx.update_elements_order(values.iter().map(|v| v.to_string()).collect());
    ctx
}

fn measured_zone_with(values: &[&str]) -> DroppableContext<String, u32, u32> {
    let mut ctx = zone_with(values);
    let n = ctx.elements.len();
    ctx.apply_measured_rects((0..n).map(|i| (i, i as u32)).collect());
    ctx
}

fn values(ctx: &DroppableContext<String, u32, u32>) -> Vec<String> {
    ctx.elements.iter().map(|e| e.value.clone()).collect()
}

#[test]
fn new_zone_tracks_nothing() {
    let ctx: DroppableContext<u64, u32, u32> = DroppableContext::new();
    assert!(ctx.elements.is_empty());
    assert!(!ctx.has_element(&1));
}

#[test]
fn update_order_tracks_new_items_unmeasured() {
    let ctx = zone_with(&["a", "b", "c"]);
    assert_eq!(values(&ctx), vec!["a", "b", "c"]);
    assert!(ctx.elements.iter().all(|e| e.rect.is_none() && e.mounted.is_none()));
}

#[test]
fn update_order_keeps_geometry_of_known_items() {
    let mut ctx = zone_with(&["a", "b", "c"]);
    ctx.elements[0].rect = Some(10);
    ctx.elements[0].mounted = Some(100);
    ctx.elements[2].rect = Some(30);
    ctx.update_elements_order(vec!["c".to_string(), "d".to_string(), "a".to_string()]);
    assert_eq!(values(&ctx), vec!["c", "d", "a"]);
    assert_eq!(ctx.elements[0].rect, Some(30));
    assert_eq!(ctx.elements[1].rect, None);
    assert_eq!(ctx.elements[2].rect, Some(10));
    assert_eq!(ctx.elements[2].mounted, Some(100));
}

#[test]
fn update_order_uses_each_tracked_item_once() {
    let mut ctx = zone_with(&["x", "y"]);
    ctx.elements[0].rect = Some(1);
    ctx.update_elements_order(vec!["x".to_string(), "x".to_string()]);
    assert_eq!(values(&ctx), vec!["x", "x"]);
    assert_eq!(ctx.elements[0].rect, Some(1));
    assert_eq!(ctx.elements[1].rect, None);
}

#[test]
fn update_order_with_empty_items_drops_everything() {
    let mut ctx = zone_with(&["a", "b"]);
    ctx.update_elements_order(Vec::new());
    assert!(ctx.elements.is_empty());
}

#[test]
fn has_element_finds_tracked_values() {
    let ctx = zone_with(&["a", "b"]);
    assert!(ctx.has_element(&"b".to_string()));
    assert!(!ctx.has_element(&"z".to_string()));
}

#[test]
fn register_mounted_sets_first_match_only() {
    let mut ctx = zone_with(&["a", "b", "b"]);
    ctx.register_element_mounted("b".to_string(), 7);
    assert_eq!(ctx.elements[0].mounted, None);
    assert_eq!(ctx.elements[1].mounted, Some(7));
    assert_eq!(ctx.elements[2].mounted, None);
}

#[test]
fn register_mounted_for_unknown_item_changes_nothing() {
    let mut ctx = zone_with(&["a"]);
    ctx.register_element_mounted("q".to_string(), 7);
    assert_eq!(ctx.elements[0].mounted, None);
    assert_eq!(ctx.elements.len(), 1);
}

#[test]
fn measurement_targets_lists_mounted_items_in_order() {
    let mut ctx = zone_with(&["a", "b", "c"]);
    ctx.register_element_mounted("c".to_string(), 30);
    ctx.register_element_mounted("a".to_string(), 10);
    assert_eq!(ctx.measurement_targets(), vec![(0, 10), (2, 30)]);
}

#[test]
fn apply_measured_rects_sets_boxes_in_range() {
    let mut ctx = zone_with(&["a", "b"]);
    ctx.apply_measured_rects(vec![(1, 5), (9, 6), (1, 7)]);
    assert_eq!(ctx.elements[0].rect, None);
    assert_eq!(ctx.elements[1].rect, Some(7));
    assert_eq!(values(&ctx), vec!["a", "b"]);
}

#[test]
fn contains_active_needs_a_tracked_active_item() {
    let ctx = zone_with(&["a", "b"]);
    assert!(ctx.contains_active(&Some("a".to_string())));
    assert!(!ctx.contains_active(&Some("z".to_string())));
    assert!(!ctx.contains_active(&None));
}

#[test]
fn move_item_forward_and_backward() {
    let mut v = vec![1, 2, 3, 4];
    move_item(&mut v, 0, 2);
    assert_eq!(v, vec![2, 3, 1, 4]);
    move_item(&mut v, 3, 0);
    assert_eq!(v, vec![4, 2, 3, 1]);
    move_item(&mut v, 1, 1);
    assert_eq!(v, vec![4, 2, 3, 1]);
}

#[test]
fn drop_target_moving_down_needs_lower_half() {
    let ctx = measured_zone_with(&["a", "b", "c"]);
    let active = "a".to_string();
    let upper = vec![PointerZone::Outside, PointerZone::BeforeCenter, PointerZone::Outside];
    assert_eq!(ctx.drop_target(&active, &upper), None);
    let lower = vec![PointerZone::Outside, PointerZone::AfterCenter, PointerZone::Outside];
    assert_eq!(ctx.drop_target(&active, &lower), Some((0, 1)));
}

#[test]
fn drop_target_moving_up_needs_upper_half() {
    let ctx = measured_zone_with(&["a", "b", "c"]);
    let active = "c".to_string();
    let upper = vec![PointerZone::BeforeCenter, PointerZone::Outside, PointerZone::Outside];
    assert_eq!(ctx.drop_target(&active, &upper), Some((2, 0)));
    let lower = vec![PointerZone::AfterCenter, PointerZone::Outside, PointerZone::Outside];
    assert_eq!(ctx.drop_target(&active, &lower), None);
}

#[test]
fn drop_target_on_center_line_or_own_box_is_no_move() {
    let ctx = measured_zone_with(&["a", "b"]);
    let active = "a".to_string();
    let center = vec![PointerZone::Outside, PointerZone::OnCenter];
    assert_eq!(ctx.drop_target(&active, &center), None);
    let own = vec![PointerZone::BeforeCenter, PointerZone::Outside];
    assert_eq!(ctx.drop_target(&active, &own), None);
}

#[test]
fn drop_target_for_untracked_item_is_no_move() {
    let ctx = measured_zone_with(&["a", "b"]);
    let zones = vec![PointerZone::AfterCenter, PointerZone::AfterCenter];
    assert_eq!(ctx.drop_target(&"z".to_string(), &zones), None);
}

#[test]
fn item_geometry_fields_are_plain() {
    let g: ItemGeometry<u8, u16, u32> = ItemGeometry { value: 1, rect: Some(2), mounted: None };
    assert_eq!(g.value, 1);
    assert_eq!(g.rect, Some(2));
    assert_eq!(g.mounted, None);
}

#[test]
fn drop_target_skips_items_without_a_box() {
    let mut ctx = measured_zone_with(&["a", "b", "c"]);
    ctx.elements[1].rect = None;
    let zones = vec![PointerZone::Outside, PointerZone::AfterCenter, PointerZone::AfterCenter];
    assert_eq!(ctx.drop_target(&"a".to_string(), &zones), Some((0, 2)));
    let unmeasured = zone_with(&["a", "b"]);
    let everywhere = vec![PointerZone::AfterCenter, PointerZone::AfterCenter];
    assert_eq!(unmeasured.drop_target(&"b".to_string(), &everywhere), None);
}
