use dioxus_dnd_kit::droppable::{move_item, DroppableContext, PointerZone};
use dioxus_dnd_kit::hooks::{listener_step, ListenerStep};

#[test]
fn reorder_after_move_keeps_geometry() {
    let mut items: Vec<u32> = vec![10, 20, 30, 40];
    let mut ctx: DroppableContext<u32, u32, u32> = DroppableContext::new();
    ctx.update_elements_order(items.clone());
    for (i, e) in ctx.elements.iter_mut().enumerate() {
        e.rect = Some(i as u32 * 100);
        e.mounted = Some(i as u32);
    }
    move_item(&mut items, 1, 3);
    ctx.update_elements_order(items.clone());
    let got: Vec<(u32, Option<u32>, Option<u32>)> =
        ctx.elements.iter().map(|e| (e.value, e.rect, e.mounted)).collect();
    assert_eq!(
        got,
        vec![(10, Some(0), Some(0)), (30, Some(200), Some(2)), (40, Some(300), Some(3)), (20, Some(100), Some(1))]
    );
}

#[test]
fn move_is_a_permutation() {
    let mut v = vec![5, 1, 5, 2];
    move_item(&mut v, 2, 0);
    let mut sorted = v.clone();
    sorted.sort();
    assert_eq!(sorted, vec![1, 2, 5, 5]);
    assert_eq!(v[0], 5);
}

#[test]
fn move_back_restores() {
    let original = vec!['a', 'b', 'c', 'd', 'e'];
    let mut v = original.clone();
    move_item(&mut v, 4, 1);
    move_item(&mut v, 1, 4);
    assert_eq!(v, original);
}

#[test]
fn measuring_targets_covers_mounted() {
    let mut ctx: DroppableContext<u32, u32, u32> = DroppableContext::new();
    ctx.update_elements_order(vec![1, 2, 3]);
    ctx.register_element_mounted(1, 11);
    ctx.register_element_mounted(3, 33);
    let targets = ctx.measurement_targets();
    let results: Vec<(usize, u32)> = targets.iter().map(|(i, m)| (*i, m + 1000)).collect();
    ctx.apply_measured_rects(results);
    assert_eq!(ctx.elements[0].rect, Some(1011));
    assert_eq!(ctx.elements[1].rect, None);
    assert_eq!(ctx.elements[2].rect, Some(1033));
}

#[test]
fn registered_item_is_measured_next() {
    let mut ctx: DroppableContext<u32, u32, u32> = DroppableContext::new();
    ctx.update_elements_order(vec![4, 5]);
    ctx.register_element_mounted(5, 9);
    assert_eq!(ctx.measurement_targets(), vec![(1, 9)]);
}

#[test]
fn relayout_follows_items_one_for_one() {
    let mut ctx: DroppableContext<char, u8, u8> = DroppableContext::new();
    ctx.update_elements_order(vec!['a', 'b']);
    ctx.elements[1].rect = Some(2);
    ctx.update_elements_order(vec!['b', 'c', 'b']);
    let values: Vec<char> = ctx.elements.iter().map(|e| e.value).collect();
    assert_eq!(values, vec!['b', 'c', 'b']);
    assert_eq!(ctx.elements[0].rect, Some(2));
    assert_eq!(ctx.elements[1].rect, None);
    assert_eq!(ctx.elements[2].rect, None);
}

#[test]
fn relayout_with_same_items_keeps_entries() {
    let mut ctx: DroppableContext<u8, u16, u32> = DroppableContext::new();
    ctx.update_elements_order(vec![3, 1, 3, 2]);
    for (i, e) in ctx.elements.iter_mut().enumerate() {
        e.rect = Some(i as u16 + 10);
        e.mounted = Some(i as u32 + 20);
    }
    let before: Vec<(u8, Option<u16>, Option<u32>)> =
        ctx.elements.iter().map(|e| (e.value, e.rect, e.mounted)).collect();
    let same: Vec<u8> = ctx.elements.iter().map(|e| e.value).collect();
    ctx.update_elements_order(same);
    let after: Vec<(u8, Option<u16>, Option<u32>)> =
        ctx.elements.iter().map(|e| (e.value, e.rect, e.mounted)).collect();
    assert_eq!(before, after);
}

#[test]
fn measured_boxes_are_exact() {
    let mut ctx: DroppableContext<u32, u32, u32> = DroppableContext::new();
    ctx.update_elements_order(vec![7, 8, 9]);
    ctx.elements[1].rect = Some(5);
    ctx.register_element_mounted(7, 70);
    ctx.register_element_mounted(9, 90);
    let results: Vec<(usize, u32)> =
        ctx.measurement_targets().iter().map(|(i, m)| (*i, m * 2)).collect();
    ctx.apply_measured_rects(results);
    assert_eq!(ctx.elements[0].rect, Some(140));
    assert_eq!(ctx.elements[1].rect, Some(5));
    assert_eq!(ctx.elements[2].rect, Some(180));
}

#[test]
fn drop_moves_the_active_item_keeping_the_others_in_order() {
    let mut items: Vec<u32> = vec![1, 2, 3, 4];
    let mut ctx: DroppableContext<u32, u8, u8> = DroppableContext::new();
    ctx.update_elements_order(items.clone());
    ctx.apply_measured_rects(vec![(0, 0), (1, 1), (2, 2), (3, 3)]);
    let zones = vec![PointerZone::Outside, PointerZone::Outside, PointerZone::AfterCenter, PointerZone::Outside];
    let (from, to) = ctx.drop_target(&2, &zones).unwrap();
    assert_eq!((from, to), (1, 2));
    move_item(&mut items, from, to);
    assert_eq!(items, vec![1, 3, 2, 4]);
}

#[test]
fn no_measured_box_means_no_reorder() {
    let mut ctx: DroppableContext<u32, u8, u8> = DroppableContext::new();
    ctx.update_elements_order(vec![1, 2, 3]);
    let zones = vec![PointerZone::Outside; 3];
    assert_eq!(ctx.drop_target(&1, &zones), None);
    let everywhere = vec![PointerZone::BeforeCenter; 3];
    assert_eq!(ctx.drop_target(&3, &everywhere), None);
    assert!(!ctx.contains_active(&None));
}

#[test]
fn listener_notifies_until_failure() {
    let messages: Vec<Result<String, ()>> = vec![
        Ok("mouseup".to_string()),
        Ok("other".to_string()),
        Ok("mouseup".to_string()),
        Err(()),
        Ok("mouseup".to_string()),
    ];
    let mut notified = Vec::new();
    for (i, m) in messages.iter().enumerate() {
        match listener_step(m, "mouseup") {
            ListenerStep::Notify => notified.push(i),
            ListenerStep::Ignore => {}
            ListenerStep::Stop => break,
        }
    }
    assert_eq!(notified, vec![0, 2]);
}
