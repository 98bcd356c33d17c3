//! Hit resolution: which cameras a pointer casts a ray through, and the
//! ordering of what the rays hit, nearest first.

use vstd::prelude::*;
use vstd::seq_lib::{to_multiset_build, to_multiset_contains};
use crate::focus::{Interaction, PointerInteraction};
use crate::pointer::{CameraView, EntityId, Pointer, PointerId, PointerRegistry, Position};

verus! {

/// One intersection of a pointer's ray: the entity and how deep it lies.
#[derive(Clone, Copy, Debug, PartialEq, Eq, Structural)]
pub struct HitEntry {
    pub entity: EntityId,
    pub depth: u32,
}

/// Whether the hit-list is switched on.
#[derive(Clone, Copy, Debug)]
pub struct PickingSettings {
    pub enable_backend: bool,
}

impl Default for PickingSettings {
    fn default() -> (r: Self)
        ensures
            r.enable_backend,
    {
        PickingSettings { enable_backend: true }
    }
}

/// Whether `entity` is among the hits.
pub open spec fn hit_in(hits: Seq<HitEntry>, entity: EntityId) -> bool {
    exists|i: int| 0 <= i < hits.len() && (#[trigger] hits[i]).entity == entity
}

/// No hit lies nearer than a hit before it.
pub open spec fn nearest_first(hits: Seq<HitEntry>) -> bool {
    forall|i: int, j: int| 0 <= i <= j < hits.len() ==> hits[i].depth <= hits[j].depth
}

/// A nearest-first list with `hit` put in: behind every hit that is not
/// deeper, before every deeper one.
pub open spec fn inserted(hits: Seq<HitEntry>, hit: HitEntry) -> Seq<HitEntry>
    decreases hits.len(),
{
    if hits.len() == 0 {
        seq![hit]
    } else if hits.last().depth <= hit.depth {
        hits.push(hit)
    } else {
        inserted(hits.drop_last(), hit).push(hits.last())
    }
}

/// The hits ordered by depth, nearest first; hits of equal depth stay in
/// the order in which they came.
pub open spec fn ordered(hits: Seq<HitEntry>) -> Seq<HitEntry>
    decreases hits.len(),
{
    if hits.len() == 0 {
        Seq::empty()
    } else {
        inserted(ordered(hits.drop_last()), hits.last())
    }
}

/// Putting a hit into a nearest-first list gives a nearest-first list with
/// the same hits and the new one.
pub proof fn lemma_inserted(hits: Seq<HitEntry>, hit: HitEntry)
    requires
        nearest_first(hits),
    ensures
        nearest_first(inserted(hits, hit)),
        inserted(hits, hit).len() == hits.len() + 1,
        inserted(hits, hit).to_multiset() == hits.to_multiset().insert(hit),
        forall|i: int|
            0 <= i < hits.len() + 1 ==> (#[trigger] inserted(hits, hit)[i]) == hit || exists|j: int|
                0 <= j < hits.len() && hits[j] == inserted(hits, hit)[i],
    decreases hits.len(),
{
    broadcast use to_multiset_build;

    let r = inserted(hits, hit);
    if hits.len() == 0 {
        assert(hits =~= Seq::empty());
        assert(r =~= Seq::<HitEntry>::empty().push(hit));
    } else if hits.last().depth <= hit.depth {
    } else {
        let rest = hits.drop_last();
        lemma_inserted(rest, hit);
        let mid = inserted(rest, hit);
        assert(hits =~= rest.push(hits.last()));
        assert(r.to_multiset() =~= hits.to_multiset().insert(hit));
        assert forall|i: int, j: int| 0 <= i <= j < r.len() implies r[i].depth <= r[j].depth by {
            if j == r.len() - 1 && i < j {
                if mid[i] != hit {
                    let k = choose|k: int| 0 <= k < rest.len() && rest[k] == mid[i];
                    assert(hits[k].depth <= hits[hits.len() - 1].depth);
                }
            }
        }
        assert forall|i: int| 0 <= i < hits.len() + 1 implies (#[trigger] r[i]) == hit || exists|
            j: int,
        |
            0 <= j < hits.len() && hits[j] == r[i] by {
            if i < mid.len() {
                if mid[i] != hit {
                    let k = choose|k: int| 0 <= k < rest.len() && rest[k] == mid[i];
                    assert(hits[k] == r[i]);
                }
            } else {
                assert(hits[hits.len() - 1] == r[i]);
            }
        }
    }
}

/// Ordering keeps the hits and puts them nearest first.
pub proof fn lemma_ordered(hits: Seq<HitEntry>)
    ensures
        nearest_first(ordered(hits)),
        ordered(hits).len() == hits.len(),
        ordered(hits).to_multiset() == hits.to_multiset(),
    decreases hits.len(),
{
    broadcast use to_multiset_build;

    if hits.len() == 0 {
        assert(hits =~= Seq::empty());
    } else {
        let rest = hits.drop_last();
        lemma_ordered(rest);
        lemma_inserted(ordered(rest), hits.last());
        assert(hits =~= rest.push(hits.last()));
    }
}

/// Inserting at the place behind the last hit that is not deeper is what
/// `inserted` describes.
proof fn lemma_inserted_at(hits: Seq<HitEntry>, hit: HitEntry, at: int)
    requires
        0 <= at <= hits.len(),
        at > 0 ==> hits[at - 1].depth <= hit.depth,
        forall|j: int| at <= j < hits.len() ==> hits[j].depth > hit.depth,
    ensures
        inserted(hits, hit) == hits.insert(at, hit),
    decreases hits.len() - at,
{
    if hits.len() == 0 {
        assert(hits.insert(at, hit) =~= seq![hit]);
    } else if at == hits.len() {
        assert(hits.insert(at, hit) =~= hits.push(hit));
    } else {
        let rest = hits.drop_last();
        lemma_inserted_at(rest, hit, at);
        assert(hits.insert(at, hit) =~= rest.insert(at, hit).push(hits.last()));
    }
}

/// Puts `hit` into a list that is ordered nearest first.
pub fn insert_hit(hits: &mut Vec<HitEntry>, hit: HitEntry)
    ensures
        final(hits)@ == inserted(old(hits)@, hit),
{
    let mut at: usize = hits.len();
    while at > 0 && hits[at - 1].depth > hit.depth
        invariant
            at <= hits.len(),
            hits@ == old(hits)@,
            forall|j: int| at <= j < hits.len() ==> hits@[j].depth > hit.depth,
        decreases at,
    {
        at -= 1;
    }
    proof {
        lemma_inserted_at(hits@, hit, at as int);
    }
    hits.insert(at, hit);
}

/// Orders the hits by depth, nearest first, so that the top hit stands
/// first; hits of equal depth stay in the order in which they came.
pub fn sort_hits(hits: &Vec<HitEntry>) -> (r: Vec<HitEntry>)
    ensures
        r@ == ordered(hits@),
        nearest_first(r@),
        r@.to_multiset() == hits@.to_multiset(),
        forall|i: int| 0 <= i < r@.len() ==> r@[0].depth <= (#[trigger] r@[i]).depth,
{
    let mut r: Vec<HitEntry> = Vec::new();
    let mut i: usize = 0;
    while i < hits.len()
        invariant
            i <= hits.len(),
            r@ == ordered(hits@.take(i as int)),
        decreases hits.len() - i,
    {
        proof {
            assert(hits@.take(i + 1).drop_last() == hits@.take(i as int));
        }
        insert_hit(&mut r, hits[i]);
        i += 1;
    }
    proof {
        assert(hits@.take(hits.len() as int) == hits@);
        lemma_ordered(hits@);
    }
    r
}

/// No entity is hit twice.
pub open spec fn distinct_entities(hits: Seq<HitEntry>) -> bool {
    forall|i: int, j: int| 0 <= i < j < hits.len() ==> hits[i].entity != hits[j].entity
}

/// The hits without those of an entity that an earlier hit names already.
pub open spec fn first_of_each(hits: Seq<HitEntry>) -> Seq<HitEntry>
    decreases hits.len(),
{
    if hits.len() == 0 {
        Seq::empty()
    } else {
        let rest = first_of_each(hits.drop_last());
        if hit_in(rest, hits.last().entity) {
            rest
        } else {
            rest.push(hits.last())
        }
    }
}

/// Keeping the first hit of each entity leaves every entity in, each once,
/// keeps the first hit first and keeps a nearest-first list nearest first.
pub proof fn lemma_first_of_each(hits: Seq<HitEntry>)
    ensures
        distinct_entities(first_of_each(hits)),
        forall|k: int|
            0 <= k < first_of_each(hits).len() ==> hits.contains(#[trigger] first_of_each(hits)[k]),
        forall|e: EntityId| #[trigger] hit_in(first_of_each(hits), e) == hit_in(hits, e),
        hits.len() > 0 ==> first_of_each(hits).len() > 0 && first_of_each(hits)[0] == hits[0],
        nearest_first(hits) ==> nearest_first(first_of_each(hits)),
    decreases hits.len(),
{
    if hits.len() > 0 {
        let front = hits.drop_last();
        let last = hits.last();
        lemma_first_of_each(front);
        let rest = first_of_each(front);
        let r = first_of_each(hits);
        assert forall|k: int| 0 <= k < r.len() implies hits.contains(#[trigger] r[k]) by {
            if k < rest.len() {
                assert(front.contains(rest[k]));
                let j = choose|j: int| 0 <= j < front.len() && front[j] == rest[k];
                assert(hits[j] == r[k]);
            } else {
                assert(hits[hits.len() - 1] == r[k]);
            }
        }
        assert forall|e: EntityId| #[trigger] hit_in(r, e) == hit_in(hits, e) by {
            if hit_in(r, e) {
                let k = choose|k: int| 0 <= k < r.len() && (#[trigger] r[k]).entity == e;
                assert(hits.contains(r[k]));
                let j = choose|j: int| 0 <= j < hits.len() && hits[j] == r[k];
                assert(hits[j].entity == e);
            }
            if hit_in(hits, e) {
                let j = choose|j: int| 0 <= j < hits.len() && (#[trigger] hits[j]).entity == e;
                if j < front.len() {
                    assert(front[j].entity == e);
                    assert(hit_in(front, e));
                    assert(hit_in(rest, e));
                }
                if hit_in(rest, e) {
                    let i = choose|i: int| 0 <= i < rest.len() && (#[trigger] rest[i]).entity == e;
                    assert(r[i].entity == e);
                } else {
                    assert(r[r.len() - 1].entity == e);
                }
            }
        }
        if front.len() == 0 {
            assert(rest.len() == 0);
        }
        if nearest_first(hits) {
            assert(nearest_first(front));
            assert forall|i: int, j: int| 0 <= i <= j < r.len() implies r[i].depth
                <= r[j].depth by {
                if j >= rest.len() && i < rest.len() {
                    assert(front.contains(rest[i]));
                    let k = choose|k: int| 0 <= k < front.len() && front[k] == rest[i];
                    assert(hits[k].depth <= hits[hits.len() - 1].depth);
                }
            }
        }
    }
}

/// Ordering keeps every hit in and brings none in.
pub proof fn lemma_ordered_contains(hits: Seq<HitEntry>, hit: HitEntry)
    ensures
        ordered(hits).contains(hit) == hits.contains(hit),
{
    lemma_ordered(hits);
    to_multiset_contains(ordered(hits), hit);
    to_multiset_contains(hits, hit);
}

/// Ordering keeps every entity in and brings none in.
pub proof fn lemma_ordered_entities(hits: Seq<HitEntry>, entity: EntityId)
    ensures
        hit_in(ordered(hits), entity) == hit_in(hits, entity),
{
    let sorted = ordered(hits);
    if hit_in(sorted, entity) {
        let i = choose|i: int| 0 <= i < sorted.len() && (#[trigger] sorted[i]).entity == entity;
        assert(sorted.contains(sorted[i]));
        lemma_ordered_contains(hits, sorted[i]);
        let j = choose|j: int| 0 <= j < hits.len() && hits[j] == sorted[i];
        assert(hits[j].entity == entity);
    }
    if hit_in(hits, entity) {
        let i = choose|i: int| 0 <= i < hits.len() && (#[trigger] hits[i]).entity == entity;
        assert(hits.contains(hits[i]));
        lemma_ordered_contains(hits, hits[i]);
        let j = choose|j: int| 0 <= j < sorted.len() && sorted[j] == hits[i];
        assert(sorted[j].entity == entity);
    }
}

/// Returns whether `entity` is among the hits.
pub fn is_hit(hits: &Vec<HitEntry>, entity: EntityId) -> (r: bool)
    ensures
        r == hit_in(hits@, entity),
{
    let mut i: usize = 0;
    while i < hits.len()
        invariant
            i <= hits.len(),
            forall|j: int| 0 <= j < i ==> (#[trigger] hits@[j]).entity != entity,
        decreases hits.len() - i,
    {
        if hits[i].entity == entity {
            return true;
        }
        i += 1;
    }
    false
}

/// Drops each hit of an entity that an earlier hit names already.
pub fn keep_first_of_each(hits: &Vec<HitEntry>) -> (r: Vec<HitEntry>)
    ensures
        r@ == first_of_each(hits@),
{
    let mut r: Vec<HitEntry> = Vec::new();
    let mut i: usize = 0;
    while i < hits.len()
        invariant
            i <= hits.len(),
            r@ == first_of_each(hits@.take(i as int)),
        decreases hits.len() - i,
    {
        proof {
            assert(hits@.take(i + 1).drop_last() == hits@.take(i as int));
        }
        if !is_hit(&r, hits[i].entity) {
            r.push(hits[i]);
        }
        i += 1;
    }
    proof {
        assert(hits@.take(hits.len() as int) == hits@);
    }
    r
}

/// A ray to cast: for which pointer, through which camera, given by its
/// place in the list of cameras, and from which position.
#[derive(Clone, Copy, Debug, PartialEq, Eq, Structural)]
pub struct RayRequest {
    pub pointer: PointerId,
    pub camera: usize,
    pub position: Position,
}

/// The rays of one pointer: one through each camera on the pointer's target
/// whose viewport holds the pointer, in the order of the cameras. A pointer
/// without a location casts none.
pub open spec fn rays_of(pointer: Pointer, cameras: Seq<CameraView>) -> Seq<RayRequest>
    decreases cameras.len(),
{
    if cameras.len() == 0 {
        Seq::empty()
    } else {
        let rest = rays_of(pointer, cameras.drop_last());
        match pointer.location.location {
            Some(location) => if location.in_viewport(cameras.last()) {
                rest.push(
                    RayRequest {
                        pointer: pointer.id,
                        camera: (cameras.len() - 1) as usize,
                        position: location.position,
                    },
                )
            } else {
                rest
            },
            None => rest,
        }
    }
}

/// The rays of all pointers, pointer by pointer.
pub open spec fn rays(pointers: Seq<Pointer>, cameras: Seq<CameraView>) -> Seq<RayRequest>
    decreases pointers.len(),
{
    if pointers.len() == 0 {
        Seq::empty()
    } else {
        rays(pointers.drop_last(), cameras) + rays_of(pointers.last(), cameras)
    }
}

/// What `rays_of` holds: a ray for exactly the cameras that see the pointer.
pub proof fn lemma_rays_of(pointer: Pointer, cameras: Seq<CameraView>)
    requires
        cameras.len() <= usize::MAX,
    ensures
        forall|k: int|
            0 <= k < rays_of(pointer, cameras).len() ==> {
                let ray = #[trigger] rays_of(pointer, cameras)[k];
                &&& ray.pointer == pointer.id
                &&& ray.camera < cameras.len()
                &&& pointer.location.location is Some
                &&& ray.position == pointer.location.location->0.position
                &&& pointer.location.location->0.in_viewport(cameras[ray.camera as int])
            },
        forall|c: int|
            0 <= c < cameras.len() && pointer.location.location is Some
                && pointer.location.location->0.in_viewport(#[trigger] cameras[c]) ==> exists|k: int|
                0 <= k < rays_of(pointer, cameras).len() && rays_of(pointer, cameras)[k].camera == c,
    decreases cameras.len(),
{
    if cameras.len() > 0 {
        let rest_cameras = cameras.drop_last();
        lemma_rays_of(pointer, rest_cameras);
        let rest = rays_of(pointer, rest_cameras);
        let all = rays_of(pointer, cameras);
        assert forall|c: int|
            0 <= c < cameras.len() && pointer.location.location is Some
                && pointer.location.location->0.in_viewport(#[trigger] cameras[c]) implies exists|
            k: int,
        | 0 <= k < all.len() && all[k].camera == c by {
            if c < rest_cameras.len() {
                assert(rest_cameras[c] == cameras[c]);
                let k = choose|k: int| 0 <= k < rest.len() && rest[k].camera == c;
                assert(all[k].camera == c);
            } else {
                assert(all[all.len() - 1].camera == c);
            }
        }
        assert forall|k: int| 0 <= k < all.len() implies {
            let ray = #[trigger] all[k];
            &&& ray.pointer == pointer.id
            &&& ray.camera < cameras.len()
            &&& pointer.location.location is Some
            &&& ray.position == pointer.location.location->0.position
            &&& pointer.location.location->0.in_viewport(cameras[ray.camera as int])
        } by {
            if k < rest.len() {
                assert(all[k] == rest[k]);
                assert(rest_cameras[rest[k].camera as int] == cameras[rest[k].camera as int]);
            }
        }
    }
}

/// Lists the rays to cast in this tick: for each pointer that has a
/// location, one through each camera on the same target whose viewport,
/// edges included, holds the pointer.
pub fn build_rays_from_cursors(pointers: &PointerRegistry, cameras: &Vec<CameraView>) -> (r: Vec<
    RayRequest,
>)
    ensures
        r@ == rays(pointers@, cameras@),
{
    let mut out: Vec<RayRequest> = Vec::new();
    let mut p: usize = 0;
    while p < pointers.pointers.len()
        invariant
            p <= pointers@.len(),
            out@ == rays(pointers@.take(p as int), cameras@),
        decreases pointers@.len() - p,
    {
        let pointer = pointers.pointers[p];
        let ghost before = out@;
        proof {
            assert(pointers@.take(p + 1).drop_last() == pointers@.take(p as int));
        }
        let mut c: usize = 0;
        while c < cameras.len()
            invariant
                c <= cameras.len(),
                out@ == before + rays_of(pointer, cameras@.take(c as int)),
            decreases cameras.len() - c,
        {
            proof {
                assert(cameras@.take(c + 1).drop_last() == cameras@.take(c as int));
            }
            match pointer.location.location {
                Some(location) => {
                    if location.is_in_viewport(&cameras[c]) {
                        out.push(
                            RayRequest { pointer: pointer.id, camera: c, position: location.position },
                        );
                    }
                },
                None => {},
            }
            c += 1;
        }
        proof {
            assert(cameras@.take(cameras.len() as int) == cameras@);
        }
        p += 1;
    }
    proof {
        assert(pointers@.take(pointers@.len() as int) == pointers@);
    }
    out
}

/// The hit-list of a pointer for what its rays hit: empty for a pointer
/// that is switched off or has no location, else the hits nearest first,
/// of each entity the nearest only.
pub open spec fn resolved(pointer: Pointer, raw: Seq<HitEntry>) -> Seq<HitEntry> {
    if !pointer.enabled || pointer.location.location is None {
        Seq::empty()
    } else {
        first_of_each(ordered(raw))
    }
}

/// A pointer's hit-list is nearest first and names no entity twice; for a
/// pointer that is switched on and has a location it names the entities
/// that the rays hit, and its top hit is a nearest one of them.
pub proof fn lemma_resolved(pointer: Pointer, raw: Seq<HitEntry>)
    ensures
        nearest_first(resolved(pointer, raw)),
        distinct_entities(resolved(pointer, raw)),
        forall|i: int|
            0 <= i < resolved(pointer, raw).len() ==> raw.contains(#[trigger] resolved(pointer, raw)[i]),
        pointer.enabled && pointer.location.location is Some ==> forall|e: EntityId|
            #[trigger] hit_in(resolved(pointer, raw), e) == hit_in(raw, e),
        forall|i: int|
            0 <= i < raw.len() && resolved(pointer, raw).len() > 0 ==> resolved(pointer, raw)[0].depth
                <= (#[trigger] raw[i]).depth,
{
    let r = resolved(pointer, raw);
    if pointer.enabled && pointer.location.location is Some {
        let sorted = ordered(raw);
        lemma_ordered(raw);
        lemma_first_of_each(sorted);
        assert forall|e: EntityId| #[trigger] hit_in(r, e) == hit_in(raw, e) by {
            lemma_ordered_entities(raw, e);
        }
        assert forall|i: int| 0 <= i < r.len() implies raw.contains(#[trigger] r[i]) by {
            assert(sorted.contains(r[i]));
            lemma_ordered_contains(raw, r[i]);
        }
        assert forall|i: int| 0 <= i < raw.len() && r.len() > 0 implies r[0].depth <= (
        #[trigger] raw[i]).depth by {
            assert(raw.contains(raw[i]));
            lemma_ordered_contains(raw, raw[i]);
            let j = choose|j: int| 0 <= j < sorted.len() && sorted[j] == raw[i];
            assert(sorted[0].depth <= sorted[j].depth);
        }
    }
}

/// Computes the hit-list of a pointer from what its rays hit.
pub fn resolve_hits(pointer: &Pointer, raw: &Vec<HitEntry>) -> (r: Vec<HitEntry>)
    ensures
        r@ == resolved(*pointer, raw@),
        nearest_first(r@),
        distinct_entities(r@),
        forall|i: int| 0 <= i < r@.len() ==> r@[0].depth <= (#[trigger] r@[i]).depth,
{
    proof {
        lemma_resolved(*pointer, raw@);
    }
    if !pointer.enabled || pointer.location.location.is_none() {
        Vec::new()
    } else {
        let sorted = sort_hits(raw);
        keep_first_of_each(&sorted)
    }
}

/// Writes the hit-list of this tick into the pointer's interaction state,
/// unless the hit-list is switched off. The list of the tick before is not
/// touched.
pub fn update_hits(
    settings: &PickingSettings,
    pointer: &Pointer,
    raw: &Vec<HitEntry>,
    interaction: &mut PointerInteraction,
)
    ensures
        settings.enable_backend ==> final(interaction)@ == (Interaction {
            current: resolved(*pointer, raw@),
            ..old(interaction)@
        }),
        !settings.enable_backend ==> final(interaction)@ == old(interaction)@,
{
    if settings.enable_backend {
        let hits = resolve_hits(pointer, raw);
        interaction.set_hits(hits);
    }
}

} // verus!
