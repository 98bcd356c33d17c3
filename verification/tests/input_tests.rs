use picking_pipeline::input::{
    get_cursor_position, mouse_pick_events, update_cursor, InputMove, InputPluginSettings,
    InputPress, WindowCursor,
};
use picking_pipeline::pointer::{
    CameraView, Location, Pointer, PointerButton, PointerId, PointerLocation, PointerPress,
    PointerRegistry, Position, PressStage, TargetId,
};

fn at(x: i32, y: i32) -> Location {
    Location { target: TargetId::Window(1), position: Position { x, y } }
}

#[test]
fn press_default_is_released() {
    let press = PointerPress::default();
    assert!(!press.is_primary_pressed());
    assert!(!press.is_secondary_pressed());
    assert!(!press.is_middle_pressed());
}

#[test]
fn press_set_changes_one_button() {
    let mut press = PointerPress::default();
    press.set(PointerButton::Secondary, true);
    assert_eq!(press, PointerPress { primary: false, secondary: true, middle: false });
    press.set(PointerButton::Middle, true);
    press.set(PointerButton::Secondary, false);
    assert_eq!(press, PointerPress { primary: false, secondary: false, middle: true });
}

#[test]
fn new_down_and_new_up() {
    let down = InputPress::new_down(PointerId::Mouse, PointerButton::Primary);
    assert_eq!(
        down,
        InputPress { id: PointerId::Mouse, press: PressStage::Down, button: PointerButton::Primary }
    );
    let up = InputPress::new_up(PointerId::Touch(3), PointerButton::Middle);
    assert_eq!(
        up,
        InputPress { id: PointerId::Touch(3), press: PressStage::Up, button: PointerButton::Middle }
    );
}

#[test]
fn just_down_and_just_up() {
    let down = InputPress::new_down(PointerId::Mouse, PointerButton::Primary);
    assert!(down.is_just_down(&PointerId::Mouse, PointerButton::Primary));
    assert!(!down.is_just_up(&PointerId::Mouse, PointerButton::Primary));
    assert!(!down.is_just_down(&PointerId::Touch(0), PointerButton::Primary));
    assert!(!down.is_just_down(&PointerId::Mouse, PointerButton::Secondary));
    let up = InputPress::new_up(PointerId::Mouse, PointerButton::Primary);
    assert!(up.is_just_up(&PointerId::Mouse, PointerButton::Primary));
    assert!(!up.is_just_down(&PointerId::Mouse, PointerButton::Primary));
}

#[test]
fn press_receive_updates_matching_pointer_only() {
    let mut pointers = PointerRegistry::new();
    pointers.upsert(Pointer::new(PointerId::Mouse));
    pointers.upsert(Pointer::new(PointerId::Touch(1)));
    let events = vec![
        InputPress::new_down(PointerId::Touch(1), PointerButton::Primary),
        InputPress::new_down(PointerId::Mouse, PointerButton::Secondary),
        InputPress::new_up(PointerId::Touch(1), PointerButton::Primary),
    ];
    InputPress::receive(&events, &mut pointers);
    assert_eq!(pointers.pointers.len(), 2);
    assert_eq!(
        pointers.get(PointerId::Mouse).press,
        PointerPress { primary: false, secondary: true, middle: false }
    );
    assert_eq!(pointers.get(PointerId::Touch(1)).press, PointerPress::default());
}

#[test]
fn press_for_unknown_pointer_creates_it() {
    let mut pointers = PointerRegistry::new();
    let events = vec![InputPress::new_down(PointerId::Touch(7), PointerButton::Primary)];
    InputPress::receive(&events, &mut pointers);
    assert_eq!(pointers.pointers.len(), 1);
    assert_eq!(pointers.pointers[0].id, PointerId::Touch(7));
    assert!(pointers.pointers[0].press.is_primary_pressed());
    assert!(pointers.pointers[0].enabled);
    assert!(pointers.pointers[0].location.location().is_none());
}

#[test]
fn repeated_down_changes_nothing() {
    let mut pointers = PointerRegistry::new();
    let down = vec![InputPress::new_down(PointerId::Mouse, PointerButton::Primary)];
    InputPress::receive(&down, &mut pointers);
    let once = pointers.get(PointerId::Mouse);
    InputPress::receive(&down, &mut pointers);
    let twice = pointers.get(PointerId::Mouse);
    assert_eq!(pointers.pointers.len(), 1);
    assert_eq!(once.press, twice.press);
    assert_eq!(once.id, twice.id);
    assert_eq!(once.enabled, twice.enabled);
    assert_eq!(once.multiselect, twice.multiselect);
    assert_eq!(once.location.location, twice.location.location);
}

#[test]
fn move_receive_sets_location() {
    let mut pointers = PointerRegistry::new();
    pointers.upsert(Pointer::new(PointerId::Mouse));
    let events = vec![
        InputMove::new(PointerId::Mouse, at(1, 2)),
        InputMove::new(PointerId::Touch(0), at(5, 5)),
        InputMove::new(PointerId::Mouse, at(3, 4)),
    ];
    InputMove::receive(&events, &mut pointers);
    assert_eq!(pointers.pointers.len(), 2);
    assert_eq!(pointers.get(PointerId::Mouse).location.location().copied(), Some(at(3, 4)));
    assert_eq!(pointers.get(PointerId::Touch(0)).location.location, Some(at(5, 5)));
}

#[test]
fn move_event_accessors() {
    let ev = InputMove::new(PointerId::Touch(2), at(9, 8));
    assert_eq!(ev.id(), PointerId::Touch(2));
    assert_eq!(*ev.location(), at(9, 8));
}

#[test]
fn registry_keeps_one_record_per_pointer() {
    let mut pointers = PointerRegistry::new();
    pointers.upsert(Pointer::new(PointerId::Mouse));
    let mut changed = Pointer::new(PointerId::Mouse);
    changed.enabled = false;
    pointers.upsert(changed);
    assert_eq!(pointers.pointers.len(), 1);
    assert!(!pointers.get(PointerId::Mouse).enabled);
    assert_eq!(pointers.find(PointerId::Mouse), Some(0));
    assert_eq!(pointers.find(PointerId::Touch(0)), None);
}

#[test]
fn registry_remove() {
    let mut pointers = PointerRegistry::new();
    pointers.upsert(Pointer::new(PointerId::Mouse));
    pointers.upsert(Pointer::new(PointerId::Touch(1)));
    pointers.upsert(Pointer::new(PointerId::Touch(2)));
    pointers.remove(PointerId::Touch(1));
    assert_eq!(pointers.pointers.len(), 2);
    assert_eq!(pointers.pointers[0].id, PointerId::Mouse);
    assert_eq!(pointers.pointers[1].id, PointerId::Touch(2));
    pointers.remove(PointerId::Touch(9));
    assert_eq!(pointers.pointers.len(), 2);
}

#[test]
fn get_of_unknown_pointer_is_fresh() {
    let pointers = PointerRegistry::new();
    let p = pointers.get(PointerId::Touch(4));
    assert_eq!(p.id, PointerId::Touch(4));
    assert!(p.enabled);
    assert!(!p.multiselect.is_pressed);
    assert_eq!(p.press, PointerPress::default());
    assert!(PointerLocation::default().location.is_none());
}

#[test]
fn viewport_includes_both_edges() {
    let camera = CameraView {
        target: TargetId::Window(1),
        viewport: Some((Position { x: 0, y: 0 }, Position { x: 100, y: 50 })),
    };
    assert!(at(0, 0).is_in_viewport(&camera));
    assert!(at(100, 50).is_in_viewport(&camera));
    assert!(at(40, 20).is_in_viewport(&camera));
    assert!(!at(101, 50).is_in_viewport(&camera));
    assert!(!at(100, 51).is_in_viewport(&camera));
    assert!(!at(-1, 0).is_in_viewport(&camera));
    assert!(!at(0, -1).is_in_viewport(&camera));
}

#[test]
fn viewport_of_other_target_or_missing() {
    let other = CameraView {
        target: TargetId::Window(2),
        viewport: Some((Position { x: 0, y: 0 }, Position { x: 100, y: 50 })),
    };
    assert!(!at(10, 10).is_in_viewport(&other));
    assert!(!at(10, 10).is_same_target(&other));
    let image = CameraView { target: TargetId::Image(1), viewport: None };
    assert!(!at(10, 10).is_same_target(&image));
    let none = CameraView { target: TargetId::Window(1), viewport: None };
    assert!(at(10, 10).is_same_target(&none));
    assert!(!at(10, 10).is_in_viewport(&none));
}

#[test]
fn settings_default_all_on() {
    let settings = InputPluginSettings::default();
    assert!(settings.run_mouse);
    assert!(settings.run_touch);
}

#[test]
fn cursor_is_in_first_window_that_holds_it() {
    let windows = vec![
        WindowCursor { target: TargetId::Window(1), cursor: None },
        WindowCursor { target: TargetId::Window(2), cursor: Some(Position { x: 3, y: 4 }) },
        WindowCursor { target: TargetId::Window(3), cursor: Some(Position { x: 5, y: 6 }) },
    ];
    assert_eq!(
        get_cursor_position(&windows),
        Some(Location { target: TargetId::Window(2), position: Position { x: 3, y: 4 } })
    );
    let empty: Vec<WindowCursor> = Vec::new();
    assert_eq!(get_cursor_position(&empty), None);
    let none = vec![WindowCursor { target: TargetId::Window(1), cursor: None }];
    assert_eq!(get_cursor_position(&none), None);
}

#[test]
fn update_cursor_creates_then_moves_then_leaves() {
    let mut pointers = PointerRegistry::new();
    update_cursor(&mut pointers, None);
    assert_eq!(pointers.pointers.len(), 0);
    update_cursor(&mut pointers, Some(at(1, 1)));
    assert_eq!(pointers.pointers.len(), 1);
    assert_eq!(pointers.get(PointerId::Mouse).location.location, Some(at(1, 1)));
    let down = vec![InputPress::new_down(PointerId::Mouse, PointerButton::Primary)];
    InputPress::receive(&down, &mut pointers);
    update_cursor(&mut pointers, Some(at(2, 3)));
    assert_eq!(pointers.get(PointerId::Mouse).location.location, Some(at(2, 3)));
    update_cursor(&mut pointers, None);
    assert_eq!(pointers.pointers.len(), 1);
    assert_eq!(pointers.get(PointerId::Mouse).location.location, None);
    assert!(pointers.get(PointerId::Mouse).press.is_primary_pressed());
}

#[test]
fn mouse_pick_events_respects_settings() {
    let windows =
        vec![WindowCursor { target: TargetId::Window(1), cursor: Some(Position { x: 7, y: 8 }) }];
    let mut pointers = PointerRegistry::new();
    let off = InputPluginSettings { run_mouse: false, run_touch: true };
    mouse_pick_events(&off, &windows, &mut pointers);
    assert_eq!(pointers.pointers.len(), 0);
    let on = InputPluginSettings::default();
    mouse_pick_events(&on, &windows, &mut pointers);
    assert_eq!(pointers.pointers.len(), 1);
    assert_eq!(pointers.get(PointerId::Mouse).location.location, Some(at(7, 8)));
}
