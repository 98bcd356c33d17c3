use picking_pipeline::focus::PointerEvent;
use picking_pipeline::hit::{HitEntry, RayRequest};
use picking_pipeline::input::{
    normalize, InputMove, InputPluginSettings, InputPress, PointerInput,
};
use picking_pipeline::pipeline::{hits_for, Pipeline, PointerHits};
use picking_pipeline::pointer::{
    CameraView, EntityId, Location, Pointer, PointerButton, PointerId, PointerRegistry, Position,
    TargetId,
};
use picking_pipeline::selection::{
    ModifierKeys, NoDeselect, PickSelection, PointerSelectionEvent, Selectable,
};

const A: EntityId = EntityId { bits: 1 };
const B: EntityId = EntityId { bits: 2 };
const P: PointerId = PointerId::Mouse;
const NO_KEYS: ModifierKeys =
    ModifierKeys { l_control: false, r_control: false, l_shift: false, r_shift: false };

fn at(x: i32, y: i32) -> Location {
    Location { target: TargetId::Window(0), position: Position { x, y } }
}

fn camera() -> CameraView {
    CameraView {
        target: TargetId::Window(0),
        viewport: Some((Position { x: 0, y: 0 }, Position { x: 640, y: 480 })),
    }
}

fn hits(id: PointerId, entries: &[(EntityId, u32)]) -> Vec<PointerHits> {
    vec![PointerHits {
        id,
        hits: entries.iter().map(|(entity, depth)| HitEntry { entity: *entity, depth: *depth }).collect(),
    }]
}

fn item(entity: EntityId, is_selected: bool) -> Selectable {
    Selectable { entity, selection: PickSelection { is_selected } }
}

#[test]
fn normalize_applies_inputs_in_arrival_order() {
    let mut pointers = PointerRegistry::new();
    let inputs = vec![
        PointerInput::Move(InputMove::new(P, at(1, 1))),
        PointerInput::Press(InputPress::new_down(P, PointerButton::Primary)),
        PointerInput::Move(InputMove::new(PointerId::Touch(0), at(2, 2))),
        PointerInput::Left(P),
        PointerInput::Left(PointerId::Touch(9)),
        PointerInput::Removed(PointerId::Touch(0)),
        PointerInput::Press(InputPress::new_down(PointerId::Touch(1), PointerButton::Primary)),
    ];
    normalize(&InputPluginSettings::default(), &inputs, &mut pointers);
    assert_eq!(pointers.pointers.len(), 2);
    assert_eq!(pointers.pointers[0].id, P);
    assert_eq!(pointers.pointers[0].location.location, None);
    assert!(pointers.pointers[0].press.is_primary_pressed());
    assert_eq!(pointers.pointers[1].id, PointerId::Touch(1));
    assert!(pointers.pointers[1].press.is_primary_pressed());
    assert_eq!(inputs[3].id(), P);
}

#[test]
fn normalize_drops_inputs_of_devices_switched_off() {
    let mut pointers = PointerRegistry::new();
    let inputs = vec![
        PointerInput::Move(InputMove::new(P, at(1, 1))),
        PointerInput::Move(InputMove::new(PointerId::Touch(0), at(2, 2))),
    ];
    let no_touch = InputPluginSettings { run_mouse: true, run_touch: false };
    normalize(&no_touch, &inputs, &mut pointers);
    assert_eq!(pointers.pointers.len(), 1);
    assert_eq!(pointers.pointers[0].id, P);
    let no_mouse = InputPluginSettings { run_mouse: false, run_touch: true };
    let mut pointers = PointerRegistry::new();
    normalize(&no_mouse, &inputs, &mut pointers);
    assert_eq!(pointers.pointers.len(), 1);
    assert_eq!(pointers.pointers[0].id, PointerId::Touch(0));
}

#[test]
fn new_pipeline_is_empty_and_switched_on() {
    let p = Pipeline::new();
    assert!(p.input.run_mouse && p.input.run_touch && p.backend.enable_backend);
    assert!(p.pointers.pointers.is_empty());
    assert!(p.followed.is_empty());
    assert!(p.selectables.is_empty());
    assert!(p.marks.is_empty());
}

#[test]
fn follow_keeps_one_state_per_pointer() {
    let mut p = Pipeline::new();
    p.follow(P);
    p.follow(PointerId::Touch(1));
    p.follow(P);
    assert_eq!(p.followed.len(), 2);
    assert_eq!(p.followed[0].id, P);
    assert_eq!(p.followed[1].id, PointerId::Touch(1));
}

#[test]
fn hits_for_takes_first_report() {
    let mut reports = hits(P, &[(A, 1)]);
    reports.extend(hits(PointerId::Touch(0), &[(B, 1)]));
    reports.extend(hits(P, &[(B, 2)]));
    assert_eq!(hits_for(&reports, P), Some(0));
    assert_eq!(hits_for(&reports, PointerId::Touch(0)), Some(1));
    assert_eq!(hits_for(&reports, PointerId::Touch(1)), None);
}

#[test]
fn begin_tick_asks_for_rays_and_sets_multiselect() {
    let mut p = Pipeline::new();
    let inputs = vec![PointerInput::Move(InputMove::new(P, at(10, 20)))];
    let shift = ModifierKeys { l_shift: true, ..NO_KEYS };
    let requests = p.begin_tick(&inputs, &shift, &vec![camera()]);
    assert_eq!(
        requests,
        vec![RayRequest { pointer: P, camera: 0, position: Position { x: 10, y: 20 } }]
    );
    assert!(p.pointers.get(P).multiselect.is_pressed);
    p.backend.enable_backend = false;
    let requests = p.begin_tick(&Vec::new(), &NO_KEYS, &vec![camera()]);
    assert!(requests.is_empty());
    assert!(!p.pointers.get(P).multiselect.is_pressed);
}

#[test]
fn two_ticks_hover_then_partial_leave() {
    let mut p = Pipeline::new();
    p.follow(P);
    p.begin_tick(&vec![PointerInput::Move(InputMove::new(P, at(10, 20)))], &NO_KEYS, &vec![camera()]);
    let (events, changes) = p.end_tick(&hits(P, &[(B, 200), (A, 100)]));
    assert_eq!(events, vec![PointerEvent::Over(P, A), PointerEvent::Over(P, B)]);
    assert!(changes.is_empty());
    p.begin_tick(&vec![PointerInput::Move(InputMove::new(P, at(30, 20)))], &NO_KEYS, &vec![camera()]);
    let (events, _) = p.end_tick(&hits(P, &[(B, 200)]));
    assert_eq!(events, vec![PointerEvent::Out(P, A)]);
    assert_eq!(p.followed[0].state.current, vec![HitEntry { entity: B, depth: 200 }]);
}

#[test]
fn cursor_leaving_gives_out_without_a_ray() {
    let mut p = Pipeline::new();
    p.follow(P);
    p.begin_tick(&vec![PointerInput::Move(InputMove::new(P, at(10, 20)))], &NO_KEYS, &vec![camera()]);
    p.end_tick(&hits(P, &[(A, 1)]));
    let requests = p.begin_tick(&vec![PointerInput::Left(P)], &NO_KEYS, &vec![camera()]);
    assert!(requests.is_empty());
    let (events, _) = p.end_tick(&Vec::new());
    assert_eq!(events, vec![PointerEvent::Out(P, A)]);
    assert!(p.followed[0].state.current.is_empty());
}

#[test]
fn pointer_without_state_is_skipped() {
    let mut p = Pipeline::new();
    p.begin_tick(&vec![PointerInput::Move(InputMove::new(P, at(10, 20)))], &NO_KEYS, &vec![camera()]);
    let (events, changes) = p.end_tick(&hits(P, &[(A, 1)]));
    assert!(events.is_empty());
    assert!(changes.is_empty());
}

#[test]
fn removed_pointer_leaves_what_it_hovered() {
    let mut p = Pipeline::new();
    p.follow(PointerId::Touch(0));
    let touch = PointerId::Touch(0);
    p.begin_tick(&vec![PointerInput::Move(InputMove::new(touch, at(1, 1)))], &NO_KEYS, &vec![camera()]);
    p.end_tick(&hits(touch, &[(A, 1)]));
    p.begin_tick(&vec![PointerInput::Removed(touch)], &NO_KEYS, &vec![camera()]);
    assert!(p.pointers.pointers.is_empty());
    let (events, _) = p.end_tick(&hits(touch, &[(A, 1)]));
    assert_eq!(events, vec![PointerEvent::Out(touch, A)]);
}

#[test]
fn press_and_release_selects_the_top_hit() {
    let mut p = Pipeline::new();
    p.follow(P);
    p.selectables = vec![item(A, true), item(B, false)];
    let cameras = vec![camera()];
    p.begin_tick(&vec![PointerInput::Move(InputMove::new(P, at(5, 5)))], &NO_KEYS, &cameras);
    p.end_tick(&hits(P, &[(B, 1)]));
    let down = vec![PointerInput::Press(InputPress::new_down(P, PointerButton::Primary))];
    p.begin_tick(&down, &NO_KEYS, &cameras);
    let (events, changes) = p.end_tick(&hits(P, &[(B, 1)]));
    assert_eq!(events, vec![PointerEvent::Down(P, B)]);
    assert_eq!(changes, vec![PointerSelectionEvent::JustDeselected(A)]);
    assert_eq!(p.selectables, vec![item(A, false), item(B, false)]);
    p.begin_tick(&down, &NO_KEYS, &cameras);
    let (events, changes) = p.end_tick(&hits(P, &[(B, 1)]));
    assert!(events.is_empty());
    assert!(changes.is_empty());
    let up = vec![PointerInput::Press(InputPress::new_up(P, PointerButton::Primary))];
    p.begin_tick(&up, &NO_KEYS, &cameras);
    let (events, changes) = p.end_tick(&hits(P, &[(B, 1)]));
    assert_eq!(events, vec![PointerEvent::Up(P, B), PointerEvent::Click(P, B)]);
    assert_eq!(changes, vec![PointerSelectionEvent::JustSelected(B)]);
    assert_eq!(p.selectables, vec![item(A, false), item(B, true)]);
}

#[test]
fn marked_entity_keeps_the_selection() {
    let mut p = Pipeline::new();
    p.follow(P);
    p.selectables = vec![item(A, true)];
    p.marks = vec![NoDeselect { entity: B }];
    let cameras = vec![camera()];
    let inputs = vec![
        PointerInput::Move(InputMove::new(P, at(5, 5))),
        PointerInput::Press(InputPress::new_down(P, PointerButton::Primary)),
    ];
    p.begin_tick(&inputs, &NO_KEYS, &cameras);
    let (events, changes) = p.end_tick(&hits(P, &[(B, 1)]));
    assert_eq!(events, vec![PointerEvent::Over(P, B), PointerEvent::Down(P, B)]);
    assert!(changes.is_empty());
    assert_eq!(p.selectables, vec![item(A, true)]);
}

#[test]
fn disabled_pointer_has_empty_hit_list() {
    let mut p = Pipeline::new();
    p.follow(P);
    let mut record = Pointer::new(P);
    record.enabled = false;
    record.location.location = Some(at(1, 1));
    p.pointers.upsert(record);
    let (events, _) = p.end_tick(&hits(P, &[(A, 1)]));
    assert!(events.is_empty());
    assert!(p.followed[0].state.current.is_empty());
}

#[test]
fn soundness_checks() {
    let mut p = Pipeline::new();
    assert!(p.is_sound());
    p.pointers.upsert(Pointer::new(P));
    p.pointers.upsert(Pointer::new(PointerId::Touch(0)));
    p.selectables = vec![item(A, true), item(B, false)];
    assert!(p.is_sound());
    p.selectables.push(item(A, false));
    assert!(!p.is_sound());
    p.selectables.pop();
    p.pointers.pointers.push(Pointer::new(PointerId::Touch(0)));
    assert!(!p.pointers.is_sound());
    assert!(!p.is_sound());
}
