use bevy::math::Vec3;
use bevy::prelude::Entity;
use bevy_mod_raycast::{IntersectionData, RaycastSource};
use picking_pipeline::hit::{sort_hits, HitEntry};
use picking_pipeline::pointer::EntityId;
use picking_pipeline::raycast::{hits_from, read_hits, RaycastPickingSet, MAX_DEPTH};

fn source(found: &[(u32, f32)]) -> RaycastSource<RaycastPickingSet> {
    let mut source = RaycastSource::<RaycastPickingSet>::new();
    for (index, distance) in found.iter() {
        source
            .intersections_mut()
            .push((Entity::from_raw(*index), IntersectionData::new(Vec3::ZERO, Vec3::Y, *distance, None)));
    }
    source
}

fn hit(index: u32, distance: f32) -> HitEntry {
    HitEntry { entity: EntityId { bits: Entity::from_raw(index).to_bits() }, depth: distance.to_bits() }
}

#[test]
fn read_hits_keeps_order_and_values() {
    let found = source(&[(7, 2.5), (3, 1.0), (9, 0.0)]);
    assert_eq!(read_hits(&found), vec![hit(7, 2.5), hit(3, 1.0), hit(9, 0.0)]);
    assert_eq!(read_hits(&found)[1].depth, 0x3F80_0000);
    assert_eq!(read_hits(&found)[1].entity, EntityId { bits: 3 });
}

#[test]
fn read_hits_of_empty_source() {
    assert!(read_hits(&source(&[])).is_empty());
}

#[test]
fn read_hits_drops_distances_that_are_not_usable() {
    let found = source(&[
        (1, f32::NAN),
        (2, 4.0),
        (3, -1.0),
        (4, f32::INFINITY),
        (5, f32::MAX),
        (6, f32::NEG_INFINITY),
        (7, -0.0),
    ]);
    assert_eq!(read_hits(&found), vec![hit(2, 4.0), hit(5, f32::MAX)]);
}

#[test]
fn depth_bits_order_as_distances_do() {
    let found = source(&[(1, 10.0), (2, 0.5), (3, 1.0e-30), (4, 3.0e20), (5, 0.5)]);
    assert_eq!(
        sort_hits(&read_hits(&found)),
        vec![hit(3, 1.0e-30), hit(2, 0.5), hit(5, 0.5), hit(1, 10.0), hit(4, 3.0e20)]
    );
}

#[test]
fn hits_from_bits() {
    let raw = vec![(1u64, 0u32), (2, MAX_DEPTH), (3, MAX_DEPTH + 1), (4, 0x8000_0000), (5, u32::MAX)];
    assert_eq!(
        hits_from(&raw),
        vec![
            HitEntry { entity: EntityId { bits: 1 }, depth: 0 },
            HitEntry { entity: EntityId { bits: 2 }, depth: 0x7F7F_FFFF },
        ]
    );
    assert_eq!(MAX_DEPTH, f32::MAX.to_bits());
}
