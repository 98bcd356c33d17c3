//! The pipeline as one object that is run once per tick, stage by stage in
//! a fixed order: input, rays, hits, interaction events, selection.

use vstd::prelude::*;
use crate::focus::{
    position_of, tick_events, tick_state, Interaction, PointerEvent, PointerInteraction,
};
use crate::hit::{
    build_rays_from_cursors, rays, resolved, update_hits, HitEntry, PickingSettings, RayRequest,
};
use crate::input::{inputs_applied, normalize, InputPluginSettings, PointerInput};
use crate::pointer::{record_of, CameraView, Pointer, PointerId, PointerRegistry};
use crate::selection::{
    are_distinct, events_applied, multiselect_events, selection_events, send_selection_events, unique_entities,
    with_multiselect, ModifierKeys, NoDeselect, PointerSelectionEvent, Selectable,
};

verus! {

/// The interaction state that is kept for one pointer.
pub struct FollowedPointer {
    pub id: PointerId,
    pub state: PointerInteraction,
}

/// What the rays of one pointer hit in this tick, in any order.
pub struct PointerHits {
    pub id: PointerId,
    pub hits: Vec<HitEntry>,
}

/// Whether entry `i` is the first that reports hits for pointer `id`.
pub open spec fn is_first_for(hits: Seq<PointerHits>, id: PointerId, i: int) -> bool {
    &&& 0 <= i < hits.len()
    &&& hits[i].id == id
    &&& forall|j: int| 0 <= j < i ==> (#[trigger] hits[j]).id != id
}

/// What was reported for pointer `id`: the hits of the first entry for it,
/// and nothing if there is none.
pub open spec fn raw_of(hits: Seq<PointerHits>, id: PointerId) -> Seq<HitEntry> {
    if exists|i: int| is_first_for(hits, id, i) {
        hits[choose|i: int| is_first_for(hits, id, i)].hits@
    } else {
        Seq::empty()
    }
}

/// Whether a state is kept for pointer `id`.
pub open spec fn is_followed(followed: Seq<FollowedPointer>, id: PointerId) -> bool {
    exists|i: int| 0 <= i < followed.len() && (#[trigger] followed[i]).id == id
}

/// The state of a followed pointer at the moment its events are synthesized:
/// with the hit-list of this tick, unless the hit-list is switched off. A
/// pointer that the registry does not know counts as a fresh one, which
/// hits nothing.
pub open spec fn focused(
    backend: PickingSettings,
    pointers: Seq<Pointer>,
    hits: Seq<PointerHits>,
    t: FollowedPointer,
) -> Interaction {
    if backend.enable_backend {
        Interaction { current: resolved(record_of(pointers, t.id), raw_of(hits, t.id)), ..t.state@ }
    } else {
        t.state@
    }
}

/// The events of one followed pointer in this tick.
pub open spec fn events_of(
    backend: PickingSettings,
    pointers: Seq<Pointer>,
    hits: Seq<PointerHits>,
    t: FollowedPointer,
) -> Seq<PointerEvent> {
    let p = record_of(pointers, t.id);
    tick_events(t.id, focused(backend, pointers, hits, t), p.press.primary, position_of(p))
}

/// The state of one followed pointer after this tick.
pub open spec fn state_after(
    backend: PickingSettings,
    pointers: Seq<Pointer>,
    hits: Seq<PointerHits>,
    t: FollowedPointer,
) -> Interaction {
    let p = record_of(pointers, t.id);
    tick_state(focused(backend, pointers, hits, t), p.press.primary, position_of(p))
}

/// The events of all followed pointers in this tick, pointer by pointer.
pub open spec fn all_events(
    backend: PickingSettings,
    pointers: Seq<Pointer>,
    hits: Seq<PointerHits>,
    followed: Seq<FollowedPointer>,
) -> Seq<PointerEvent>
    decreases followed.len(),
{
    if followed.len() == 0 {
        Seq::empty()
    } else {
        all_events(backend, pointers, hits, followed.drop_last()) + events_of(
            backend,
            pointers,
            hits,
            followed.last(),
        )
    }
}

/// Returns what was reported for pointer `id`, if anything was.
pub fn hits_for(hits: &Vec<PointerHits>, id: PointerId) -> (r: Option<usize>)
    ensures
        r is Some ==> r->0 < hits.len() && hits@[r->0 as int].hits@ == raw_of(hits@, id),
        r is None ==> raw_of(hits@, id) == Seq::<HitEntry>::empty(),
{
    let mut i: usize = 0;
    while i < hits.len()
        invariant
            i <= hits.len(),
            forall|j: int| 0 <= j < i ==> (#[trigger] hits@[j]).id != id,
        decreases hits.len() - i,
    {
        if hits[i].id == id {
            proof {
                assert(is_first_for(hits@, id, i as int));
                let c = choose|c: int| is_first_for(hits@, id, c);
                if c < i {
                    assert(hits@[c].id != id);
                }
                if i < c {
                    assert(hits@[i as int].id != id);
                }
            }
            return Some(i);
        }
        i += 1;
    }
    proof {
        assert forall|c: int| !is_first_for(hits@, id, c) by {
            if 0 <= c < hits.len() {
                assert(hits@[c].id != id);
            }
        }
    }
    None
}

/// Appends `more` to `out`.
fn push_all(out: &mut Vec<PointerEvent>, more: &Vec<PointerEvent>)
    ensures
        final(out)@ == old(out)@ + more@,
{
    let mut i: usize = 0;
    while i < more.len()
        invariant
            i <= more.len(),
            out@ == old(out)@ + more@.take(i as int),
        decreases more.len() - i,
    {
        out.push(more[i]);
        proof {
            assert(more@.take(i + 1) == more@.take(i as int).push(more@[i as int]));
        }
        i += 1;
    }
    proof {
        assert(more@.take(more.len() as int) == more@);
    }
}

/// The picking pipeline: its settings and all that it keeps from one tick
/// to the next.
pub struct Pipeline {
    pub input: InputPluginSettings,
    pub backend: PickingSettings,
    pub pointers: PointerRegistry,
    pub followed: Vec<FollowedPointer>,
    pub selectables: Vec<Selectable>,
    pub marks: Vec<NoDeselect>,
}

impl Pipeline {
    /// No pointer has two records and no entity is selectable twice.
    pub open spec fn wf(&self) -> bool {
        &&& self.pointers.wf()
        &&& unique_entities(self.selectables@)
    }

    /// Returns whether the pipeline is well formed, which every stage asks
    /// for.
    pub fn is_sound(&self) -> (ok: bool)
        ensures
            ok == self.wf(),
    {
        self.pointers.is_sound() && are_distinct(&self.selectables)
    }

    /// Creates a pipeline with every stage switched on, without pointers
    /// and without entities.
    pub fn new() -> (r: Pipeline)
        ensures
            r.wf(),
            r.input.run_mouse && r.input.run_touch && r.backend.enable_backend,
            r.pointers@.len() == 0,
            r.followed@.len() == 0,
            r.selectables@.len() == 0,
            r.marks@.len() == 0,
    {
        Pipeline {
            input: InputPluginSettings { run_mouse: true, run_touch: true },
            backend: PickingSettings { enable_backend: true },
            pointers: PointerRegistry::new(),
            followed: Vec::new(),
            selectables: Vec::new(),
            marks: Vec::new(),
        }
    }

    /// Starts to keep an interaction state for pointer `id`, unless one is
    /// kept already.
    pub fn follow(&mut self, id: PointerId)
        ensures
            is_followed(old(self).followed@, id) ==> *final(self) == *old(self),
            !is_followed(old(self).followed@, id) ==> {
                &&& final(self).followed@.len() == old(self).followed@.len() + 1
                &&& final(self).followed@.drop_last() == old(self).followed@
                &&& final(self).followed@.last().id == id
                &&& final(self).followed@.last().state@ == PointerInteraction::fresh()
                &&& final(self).input == old(self).input
                &&& final(self).backend == old(self).backend
                &&& final(self).pointers == old(self).pointers
                &&& final(self).selectables == old(self).selectables
                &&& final(self).marks == old(self).marks
            },
    {
        let mut i: usize = 0;
        while i < self.followed.len()
            invariant
                *self == *old(self),
                i <= self.followed.len(),
                forall|j: int| 0 <= j < i ==> (#[trigger] self.followed@[j]).id != id,
            decreases self.followed.len() - i,
        {
            if self.followed[i].id == id {
                return;
            }
            i += 1;
        }
        self.followed.push(FollowedPointer { id, state: PointerInteraction::new() });
        proof {
            assert(self.followed@.drop_last() == old(self).followed@);
        }
    }

    /// The first half of a tick. Applies the inputs that have arrived, sets
    /// multiselect from the modifier keys, and returns the rays to cast,
    /// none if the hit-list is switched off.
    pub fn begin_tick(
        &mut self,
        inputs: &Vec<PointerInput>,
        keys: &ModifierKeys,
        cameras: &Vec<CameraView>,
    ) -> (requests: Vec<RayRequest>)
        requires
            old(self).wf(),
        ensures
            final(self).wf(),
            final(self).pointers@ == with_multiselect(
                inputs_applied(old(self).input, old(self).pointers@, inputs@),
                keys.any_pressed(),
            ),
            requests@ == if old(self).backend.enable_backend {
                rays(final(self).pointers@, cameras@)
            } else {
                Seq::empty()
            },
            final(self).input == old(self).input,
            final(self).backend == old(self).backend,
            final(self).followed == old(self).followed,
            final(self).selectables == old(self).selectables,
            final(self).marks == old(self).marks,
    {
        normalize(&self.input, inputs, &mut self.pointers);
        multiselect_events(keys, &mut self.pointers);
        if self.backend.enable_backend {
            build_rays_from_cursors(&self.pointers, cameras)
        } else {
            Vec::new()
        }
    }

    /// Stores the hit-list of each followed pointer, synthesizes its events
    /// and makes the hit-list the previous one, pointer by pointer.
    pub fn focus_stage(&mut self, hits: &Vec<PointerHits>) -> (events: Vec<PointerEvent>)
        requires
            old(self).wf(),
        ensures
            final(self).wf(),
            events@ == all_events(
                old(self).backend,
                old(self).pointers@,
                hits@,
                old(self).followed@,
            ),
            final(self).followed@.len() == old(self).followed@.len(),
            forall|i: int|
                0 <= i < old(self).followed@.len() ==> (#[trigger] final(self).followed@[i]).id == old(
                    self,
                ).followed@[i].id && final(self).followed@[i].state@ == state_after(
                    old(self).backend,
                    old(self).pointers@,
                    hits@,
                    old(self).followed@[i],
                ),
            final(self).input == old(self).input,
            final(self).backend == old(self).backend,
            final(self).pointers == old(self).pointers,
            final(self).selectables == old(self).selectables,
            final(self).marks == old(self).marks,
    {
        let mut events: Vec<PointerEvent> = Vec::new();
        let none: Vec<HitEntry> = Vec::new();
        let mut i: usize = 0;
        while i < self.followed.len()
            invariant
                self.wf(),
                none@ == Seq::<HitEntry>::empty(),
                i <= self.followed@.len(),
                self.followed@.len() == old(self).followed@.len(),
                forall|j: int|
                    0 <= j < i ==> (#[trigger] self.followed@[j]).id == old(self).followed@[j].id
                        && self.followed@[j].state@ == state_after(
                        old(self).backend,
                        old(self).pointers@,
                        hits@,
                        old(self).followed@[j],
                    ),
                forall|j: int|
                    i <= j < self.followed@.len() ==> (#[trigger] self.followed@[j]) == old(
                        self,
                    ).followed@[j],
                events@ == all_events(
                    old(self).backend,
                    old(self).pointers@,
                    hits@,
                    old(self).followed@.take(i as int),
                ),
                self.input == old(self).input,
                self.backend == old(self).backend,
                self.pointers == old(self).pointers,
                self.selectables == old(self).selectables,
                self.marks == old(self).marks,
            decreases self.followed@.len() - i,
        {
            proof {
                assert(old(self).followed@.take(i + 1).drop_last() == old(self).followed@.take(
                    i as int,
                ));
            }
            let id = self.followed[i].id;
            let pointer = self.pointers.get(id);
            let mut state = self.followed[i].state.duplicate();
            match hits_for(hits, id) {
                Some(at) => update_hits(&self.backend, &pointer, &hits[at].hits, &mut state),
                None => update_hits(&self.backend, &pointer, &none, &mut state),
            }
            let position = match pointer.location.location {
                Some(location) => Some(location.position),
                None => None,
            };
            let synthesized = state.synthesize(id, pointer.press.primary, position);
            push_all(&mut events, &synthesized);
            self.followed.set(i, FollowedPointer { id, state });
            i += 1;
        }
        proof {
            assert(old(self).followed@.take(old(self).followed@.len() as int) == old(self).followed@);
        }
        events
    }

    /// Determines the selection events that the interaction events call
    /// for, applies them to the selectables and returns them.
    pub fn selection_stage(&mut self, events: &Vec<PointerEvent>) -> (changes: Vec<
        PointerSelectionEvent,
    >)
        requires
            old(self).wf(),
        ensures
            final(self).wf(),
            changes@ == selection_events(
                events@,
                old(self).pointers@,
                old(self).marks@,
                old(self).selectables@,
            ),
            final(self).selectables@ == events_applied(old(self).selectables@, changes@),
            final(self).input == old(self).input,
            final(self).backend == old(self).backend,
            final(self).pointers == old(self).pointers,
            final(self).followed == old(self).followed,
            final(self).marks == old(self).marks,
    {
        let changes = send_selection_events(events, &self.pointers, &self.marks, &self.selectables);
        PointerSelectionEvent::receive(&changes, &mut self.selectables);
        changes
    }

    /// The second half of a tick, once the rays have been cast: the hits
    /// become interaction events, and these become selection changes. The
    /// interaction events are judged by the selection as the tick found it.
    pub fn end_tick(&mut self, hits: &Vec<PointerHits>) -> (r: (
        Vec<PointerEvent>,
        Vec<PointerSelectionEvent>,
    ))
        requires
            old(self).wf(),
        ensures
            final(self).wf(),
            r.0@ == all_events(old(self).backend, old(self).pointers@, hits@, old(self).followed@),
            r.1@ == selection_events(
                r.0@,
                old(self).pointers@,
                old(self).marks@,
                old(self).selectables@,
            ),
            final(self).selectables@ == events_applied(old(self).selectables@, r.1@),
            final(self).followed@.len() == old(self).followed@.len(),
            forall|i: int|
                0 <= i < old(self).followed@.len() ==> (#[trigger] final(self).followed@[i]).id == old(
                    self,
                ).followed@[i].id && final(self).followed@[i].state@ == state_after(
                    old(self).backend,
                    old(self).pointers@,
                    hits@,
                    old(self).followed@[i],
                ),
            final(self).input == old(self).input,
            final(self).backend == old(self).backend,
            final(self).pointers == old(self).pointers,
            final(self).marks == old(self).marks,
    {
        let events = self.focus_stage(hits);
        let changes = self.selection_stage(&events);
        (events, changes)
    }
}

} // verus!
