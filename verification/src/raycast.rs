//! Reading the intersections that `bevy_mod_raycast` found for a pointer's
//! ray, as hits with integer depths.

use vstd::prelude::*;
use crate::hit::HitEntry;
use crate::pointer::EntityId;

verus! {

/// Tags the ray casting types that picking uses. Ray sources and meshes of
/// picking thus have a type of their own and do not collide with those of
/// other ray casts in the same application.
pub struct RaycastPickingSet;

/// The ray source of `bevy_mod_raycast`, which holds the intersections of
/// its ray. Nothing inside it is visible here.
#[verifier::external_type_specification]
#[verifier::external_body]
#[verifier::reject_recursive_types(T)]
pub struct ExRaycastSource<T>(bevy_mod_raycast::RaycastSource<T>);

/// The intersections that a ray source holds, in its order: of each the
/// bits of the entity and the bits of the distance.
pub uninterp spec fn intersections_of(
    source: bevy_mod_raycast::RaycastSource<RaycastPickingSet>,
) -> Seq<(u64, u32)>;

/// Calls `RaycastSource::intersections` and hands the list on, each
/// intersection as the bits of its entity (`Entity::to_bits`) and the bits
/// of its distance (`IntersectionData::distance`). The contract names the
/// list; it claims nothing of its length, order or contents.
#[verifier::external_body]
fn intersections(source: &bevy_mod_raycast::RaycastSource<RaycastPickingSet>) -> (r: Vec<(u64, u32)>)
    ensures
        r@ == intersections_of(*source),
{
    source
        .intersections()
        .iter()
        .map(|(entity, data)| (entity.to_bits(), data.distance().to_bits()))
        .collect()
}

/// The bits of the largest finite distance. The bits of a distance that is
/// finite and not negative are at most this, and among such distances the
/// bits grow with the distance.
pub const MAX_DEPTH: u32 = 0x7F7F_FFFF;

/// The hits among the intersections: those whose distance is finite and not
/// negative, in the order in which they stand, the bits of the distance as
/// the depth.
pub open spec fn usable_hits(raw: Seq<(u64, u32)>) -> Seq<HitEntry>
    decreases raw.len(),
{
    if raw.len() == 0 {
        Seq::empty()
    } else if raw.last().1 <= MAX_DEPTH {
        usable_hits(raw.drop_last()).push(
            HitEntry { entity: EntityId { bits: raw.last().0 }, depth: raw.last().1 },
        )
    } else {
        usable_hits(raw.drop_last())
    }
}

/// Turns intersections into hits. An intersection at a distance that is
/// negative, infinite or not a number is no hit.
pub fn hits_from(raw: &Vec<(u64, u32)>) -> (r: Vec<HitEntry>)
    ensures
        r@ == usable_hits(raw@),
{
    let mut r: Vec<HitEntry> = Vec::new();
    let mut i: usize = 0;
    while i < raw.len()
        invariant
            i <= raw.len(),
            r@ == usable_hits(raw@.take(i as int)),
        decreases raw.len() - i,
    {
        proof {
            assert(raw@.take(i + 1).drop_last() == raw@.take(i as int));
        }
        let (entity, depth) = raw[i];
        if depth <= MAX_DEPTH {
            r.push(HitEntry { entity: EntityId { bits: entity }, depth });
        }
        i += 1;
    }
    proof {
        assert(raw@.take(raw.len() as int) == raw@);
    }
    r
}

/// Reads the hits of a pointer's ray from its ray source.
pub fn read_hits(source: &bevy_mod_raycast::RaycastSource<RaycastPickingSet>) -> (r: Vec<HitEntry>)
    ensures
        r@ == usable_hits(intersections_of(*source)),
{
    let raw = intersections(source);
    hits_from(&raw)
}

} // verus!
