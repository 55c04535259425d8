use dioxus_flow::gesture::{wheel, Gesture, Interaction, MoveStep, ReleaseStep, WheelStep};

#[test]
fn a_press_on_the_pane_pans_and_a_still_release_is_a_click() {
    let mut g = Gesture::new();
    assert!(g.is_free());
    assert!(g.press_pane(true, 7, true));
    assert_eq!(g.interaction, Interaction::Pan);
    assert_eq!(g.release(7, false), ReleaseStep::PaneClick { deselect: true });
    assert_eq!(g.interaction, Interaction::Idle);
    assert_eq!(g.pointer_id, None);
}

#[test]
fn a_pan_that_moved_is_not_a_click() {
    let mut g = Gesture::new();
    g.press_pane(true, 1, true);
    assert_eq!(g.pointer_move(1, true, false), MoveStep::Pan);
    assert_eq!(g.release(1, true), ReleaseStep::Done);
}

#[test]
fn without_pan_on_drag_a_still_release_is_still_a_click() {
    let mut g = Gesture::new();
    g.press_pane(true, 1, false);
    assert_eq!(g.interaction, Interaction::PanePressed);
    assert_eq!(g.pointer_move(1, true, false), MoveStep::Ignore);
    assert_eq!(g.release(1, true), ReleaseStep::PaneClick { deselect: false });
}

#[test]
fn without_pan_on_drag_a_press_that_travelled_is_no_click() {
    let mut g = Gesture::new();
    g.press_pane(true, 1, false);
    assert_eq!(g.pointer_move(1, true, true), MoveStep::Ignore);
    assert!(g.moved);
    assert_eq!(g.pointer_move(1, true, false), MoveStep::Ignore);
    assert_eq!(g.release(1, false), ReleaseStep::Done);
}

#[test]
fn only_a_primary_press_on_a_free_pointer_starts_anything() {
    let mut g = Gesture::new();
    assert!(!g.press_pane(false, 1, true));
    assert_eq!(g, Gesture::new());
    assert!(g.claim());
    assert_eq!(g.interaction, Interaction::Pressed);
    assert!(!g.press_pane(true, 1, true));
    assert!(!g.claim());
    assert_eq!(g.release(1, false), ReleaseStep::Done);
    assert!(g.is_free());
}

#[test]
fn a_node_press_must_travel_before_it_drags() {
    let mut g = Gesture::new();
    assert!(g.press_node(3, true));
    assert_eq!(g.interaction, Interaction::DragNode);
    assert_eq!(g.pointer_move(3, true, false), MoveStep::Hold);
    assert_eq!(g.pointer_move(3, true, true), MoveStep::Drag { began: true });
    assert_eq!(g.pointer_move(3, true, false), MoveStep::Drag { began: false });
    assert_eq!(g.release(3, false), ReleaseStep::DragStop);
}

#[test]
fn a_node_press_released_in_place_is_no_drag() {
    let mut g = Gesture::new();
    g.press_node(3, true);
    assert_eq!(g.release(3, false), ReleaseStep::Done);
    let mut still = Gesture::new();
    assert!(still.press_node(3, false));
    assert_eq!(still.interaction, Interaction::Pressed);
    assert_eq!(still.pointer_move(3, true, true), MoveStep::Ignore);
}

#[test]
fn another_pointer_cannot_steer_the_gesture() {
    let mut g = Gesture::new();
    g.press_pane(true, 1, true);
    let before = g;
    assert_eq!(g.pointer_move(2, true, true), MoveStep::Ignore);
    assert_eq!(g.release(2, false), ReleaseStep::Ignore);
    assert!(!g.cancel(2));
    assert_eq!(g, before);
    assert!(g.cancel(1));
    assert!(g.is_free());
}

#[test]
fn released_buttons_end_the_gesture() {
    let mut g = Gesture::new();
    g.press_handle(4);
    assert_eq!(g.interaction, Interaction::Connect);
    assert_eq!(g.pointer_move(4, true, false), MoveStep::Aim);
    assert_eq!(g.pointer_move(4, false, false), MoveStep::Ended);
    assert!(g.is_free());
    g.press_handle(4);
    assert_eq!(g.release(4, false), ReleaseStep::Connect);
}

#[test]
fn escape_ends_anything() {
    let mut g = Gesture::new();
    g.press_node(1, true);
    g.end();
    assert!(g.is_free());
    assert_eq!(g.pointer_move(1, true, true), MoveStep::Ignore);
}

#[test]
fn scrolling_pans_zooms_or_is_left_to_the_page() {
    assert_eq!(wheel(false, false, true, true, false, false), WheelStep::Unhandled);
    assert_eq!(wheel(true, true, true, false, false, false), WheelStep::PinchZoom);
    assert_eq!(wheel(true, false, true, false, false, true), WheelStep::Swallow);
    assert_eq!(wheel(true, false, false, true, true, false), WheelStep::Pan { swap_axes: true });
    assert_eq!(wheel(true, false, false, true, false, false), WheelStep::Pan { swap_axes: false });
    assert_eq!(wheel(true, true, false, false, true, false), WheelStep::Pan { swap_axes: false });
    assert_eq!(wheel(false, true, true, false, false, false), WheelStep::Zoom);
    assert_eq!(wheel(false, true, false, false, false, true), WheelStep::Swallow);
}
