use picking_pipeline::focus::PointerInteraction;
use picking_pipeline::hit::{
    build_rays_from_cursors, insert_hit, keep_first_of_each, resolve_hits, sort_hits, update_hits,
    HitEntry, PickingSettings, RayRequest,
};
use picking_pipeline::pointer::{
    CameraView, EntityId, Location, Pointer, PointerId, PointerLocation, PointerRegistry, Position,
    TargetId,
};

fn hit(entity: u64, depth: u32) -> HitEntry {
    HitEntry { entity: EntityId { bits: entity }, depth }
}

fn pointer_at(id: PointerId, window: u64, x: i32, y: i32) -> Pointer {
    let mut p = Pointer::new(id);
    p.location = PointerLocation {
        location: Some(Location { target: TargetId::Window(window), position: Position { x, y } }),
    };
    p
}

fn camera(window: u64, min: (i32, i32), max: (i32, i32)) -> CameraView {
    CameraView {
        target: TargetId::Window(window),
        viewport: Some((Position { x: min.0, y: min.1 }, Position { x: max.0, y: max.1 })),
    }
}

#[test]
fn sort_puts_nearest_first() {
    let raw = vec![hit(1, 30), hit(2, 10), hit(3, 20)];
    assert_eq!(sort_hits(&raw), vec![hit(2, 10), hit(3, 20), hit(1, 30)]);
}

#[test]
fn sort_keeps_order_of_equal_depths() {
    let raw = vec![hit(1, 5), hit(2, 3), hit(3, 5), hit(4, 3), hit(5, 5)];
    assert_eq!(sort_hits(&raw), vec![hit(2, 3), hit(4, 3), hit(1, 5), hit(3, 5), hit(5, 5)]);
}

#[test]
fn sort_of_nothing_and_of_one() {
    let none: Vec<HitEntry> = Vec::new();
    assert_eq!(sort_hits(&none), none);
    assert_eq!(sort_hits(&vec![hit(9, 9)]), vec![hit(9, 9)]);
}

#[test]
fn top_hit_is_nearest() {
    let raw = vec![hit(1, 7), hit(2, 9), hit(3, 1), hit(4, 4), hit(5, 1)];
    let sorted = sort_hits(&raw);
    assert_eq!(sorted[0], hit(3, 1));
    for entry in sorted.iter() {
        assert!(sorted[0].depth <= entry.depth);
    }
    assert_eq!(sorted.len(), raw.len());
}

#[test]
fn insert_hit_goes_behind_equal_depth() {
    let mut hits = vec![hit(1, 1), hit(2, 2), hit(3, 3)];
    insert_hit(&mut hits, hit(4, 2));
    assert_eq!(hits, vec![hit(1, 1), hit(2, 2), hit(4, 2), hit(3, 3)]);
    insert_hit(&mut hits, hit(5, 0));
    assert_eq!(hits[0], hit(5, 0));
    insert_hit(&mut hits, hit(6, 9));
    assert_eq!(hits[5], hit(6, 9));
}

#[test]
fn disabled_pointer_hits_nothing() {
    let mut p = pointer_at(PointerId::Mouse, 1, 5, 5);
    p.enabled = false;
    assert_eq!(resolve_hits(&p, &vec![hit(1, 1)]), Vec::<HitEntry>::new());
}

#[test]
fn pointer_without_location_hits_nothing() {
    let p = Pointer::new(PointerId::Mouse);
    assert_eq!(resolve_hits(&p, &vec![hit(1, 1)]), Vec::<HitEntry>::new());
}

#[test]
fn resolve_sorts_for_active_pointer() {
    let p = pointer_at(PointerId::Mouse, 1, 5, 5);
    assert_eq!(resolve_hits(&p, &vec![hit(2, 20), hit(1, 10)]), vec![hit(1, 10), hit(2, 20)]);
}

#[test]
fn update_hits_writes_current_only() {
    let p = pointer_at(PointerId::Mouse, 1, 5, 5);
    let mut state = PointerInteraction::new();
    state.previous = vec![hit(9, 9)];
    update_hits(&PickingSettings::default(), &p, &vec![hit(2, 20), hit(1, 10)], &mut state);
    assert_eq!(state.current, vec![hit(1, 10), hit(2, 20)]);
    assert_eq!(state.previous, vec![hit(9, 9)]);
    update_hits(&PickingSettings { enable_backend: false }, &p, &vec![hit(3, 1)], &mut state);
    assert_eq!(state.current, vec![hit(1, 10), hit(2, 20)]);
}

#[test]
fn picking_settings_default_on() {
    assert!(PickingSettings::default().enable_backend);
}

#[test]
fn rays_only_through_cameras_that_see_the_pointer() {
    let mut pointers = PointerRegistry::new();
    pointers.upsert(pointer_at(PointerId::Mouse, 1, 10, 10));
    pointers.upsert(Pointer::new(PointerId::Touch(0)));
    pointers.upsert(pointer_at(PointerId::Touch(1), 2, 0, 0));
    let cameras = vec![
        camera(1, (0, 0), (100, 100)),
        camera(2, (0, 0), (100, 100)),
        camera(1, (20, 20), (100, 100)),
        camera(1, (10, 10), (10, 10)),
        CameraView { target: TargetId::Window(1), viewport: None },
    ];
    let rays = build_rays_from_cursors(&pointers, &cameras);
    assert_eq!(
        rays,
        vec![
            RayRequest { pointer: PointerId::Mouse, camera: 0, position: Position { x: 10, y: 10 } },
            RayRequest { pointer: PointerId::Mouse, camera: 3, position: Position { x: 10, y: 10 } },
            RayRequest { pointer: PointerId::Touch(1), camera: 1, position: Position { x: 0, y: 0 } },
        ]
    );
}

#[test]
fn no_rays_without_cameras_or_pointers() {
    let pointers = PointerRegistry::new();
    assert!(build_rays_from_cursors(&pointers, &vec![camera(1, (0, 0), (1, 1))]).is_empty());
    let mut pointers = PointerRegistry::new();
    pointers.upsert(pointer_at(PointerId::Mouse, 1, 10, 10));
    assert!(build_rays_from_cursors(&pointers, &Vec::new()).is_empty());
}

#[test]
fn hit_list_names_each_entity_once() {
    let p = pointer_at(PointerId::Mouse, 1, 5, 5);
    let raw = vec![hit(1, 30), hit(2, 10), hit(1, 5), hit(2, 10), hit(3, 20), hit(1, 30)];
    assert_eq!(resolve_hits(&p, &raw), vec![hit(1, 5), hit(2, 10), hit(3, 20)]);
}

#[test]
fn keep_first_of_each_keeps_order() {
    let hits = vec![hit(4, 9), hit(2, 1), hit(4, 1), hit(2, 7), hit(5, 0)];
    assert_eq!(keep_first_of_each(&hits), vec![hit(4, 9), hit(2, 1), hit(5, 0)]);
    assert!(keep_first_of_each(&Vec::new()).is_empty());
}
