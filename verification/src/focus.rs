//! The events that a pointer's interaction with the scene gives rise to, and
//! their synthesis from the change of the pointer's hit-list.

use vstd::prelude::*;
use crate::hit::{hit_in, is_hit, HitEntry};
use crate::pointer::{EntityId, Pointer, PointerId, Position};

verus! {

/// How far a pointer moved, in the units of its position.
#[derive(Clone, Copy, Debug, PartialEq, Eq, Structural)]
pub struct Delta {
    pub dx: i64,
    pub dy: i64,
}

/// An interaction of a pointer with an entity.
#[derive(Clone, Copy, Debug, PartialEq, Eq, Structural)]
pub enum PointerEvent {
    /// The pointer came over the entity.
    Over(PointerId, EntityId),
    /// The pointer left the entity.
    Out(PointerId, EntityId),
    /// The primary button went down over the entity.
    Down(PointerId, EntityId),
    /// The primary button went up over the entity.
    Up(PointerId, EntityId),
    /// The primary button went down and up over the entity.
    Click(PointerId, EntityId),
    /// The pointer started to move with the button down on the entity.
    DragStart(PointerId, EntityId),
    /// The pointer moved on with the button down on the entity.
    Drag(PointerId, EntityId, Delta),
    /// The button went up after the pointer was dragged from the entity.
    DragEnd(PointerId, EntityId),
}

/// How far a press has got towards a drag.
#[derive(Clone, Copy, Debug, PartialEq, Eq, Structural)]
pub enum DragState {
    /// No press is under way.
    Idle,
    /// The button went down on the entity and the pointer has not moved.
    Armed(EntityId),
    /// The pointer has moved with the button down on the entity.
    Dragging(EntityId),
}

/// What a pointer's interaction state holds, as plain values.
pub struct Interaction {
    /// The hits of this tick, nearest first.
    pub current: Seq<HitEntry>,
    /// The hits of the tick before.
    pub previous: Seq<HitEntry>,
    /// Whether the primary button was down at the end of the tick before.
    pub was_down: bool,
    /// The entity that was the top hit when the button last went down, as
    /// long as the button is held and the pointer has not left the entity.
    pub pressed_on: Option<EntityId>,
    pub drag: DragState,
    /// The last position at which the pointer was seen.
    pub last_position: Option<Position>,
}

/// The interaction state of one pointer: the hit-lists of this tick and of
/// the tick before, and what is remembered of the press under way.
pub struct PointerInteraction {
    pub current: Vec<HitEntry>,
    pub previous: Vec<HitEntry>,
    pub was_down: bool,
    pub pressed_on: Option<EntityId>,
    pub drag: DragState,
    pub last_position: Option<Position>,
}

impl View for PointerInteraction {
    type V = Interaction;

    open spec fn view(&self) -> Interaction {
        Interaction {
            current: self.current@,
            previous: self.previous@,
            was_down: self.was_down,
            pressed_on: self.pressed_on,
            drag: self.drag,
            last_position: self.last_position,
        }
    }
}

/// The entity of the first hit.
pub open spec fn top_hit(hits: Seq<HitEntry>) -> Option<EntityId> {
    if hits.len() > 0 {
        Some(hits[0].entity)
    } else {
        None
    }
}

/// One `Out` for each hit of `previous` whose entity is not hit now, in the
/// order of `previous`.
pub open spec fn out_events(id: PointerId, previous: Seq<HitEntry>, current: Seq<HitEntry>) -> Seq<
    PointerEvent,
>
    decreases previous.len(),
{
    if previous.len() == 0 {
        Seq::empty()
    } else {
        let rest = out_events(id, previous.drop_last(), current);
        if hit_in(current, previous.last().entity) {
            rest
        } else {
            rest.push(PointerEvent::Out(id, previous.last().entity))
        }
    }
}

/// One `Over` for each hit of `current` whose entity was not hit before, in
/// the order of `current`.
pub open spec fn over_events(id: PointerId, current: Seq<HitEntry>, previous: Seq<HitEntry>) -> Seq<
    PointerEvent,
>
    decreases current.len(),
{
    if current.len() == 0 {
        Seq::empty()
    } else {
        let rest = over_events(id, current.drop_last(), previous);
        if hit_in(previous, current.last().entity) {
            rest
        } else {
            rest.push(PointerEvent::Over(id, current.last().entity))
        }
    }
}

/// The events of the primary button, which go to the top hit alone: `Down`
/// when the button goes down, `Up` when it goes up, and then `Click` if the
/// press began on the same entity and the pointer stayed on it.
pub open spec fn press_events(id: PointerId, v: Interaction, is_down: bool) -> Seq<PointerEvent> {
    match top_hit(v.current) {
        Some(top) => if !v.was_down && is_down {
            seq![PointerEvent::Down(id, top)]
        } else if v.was_down && !is_down {
            if v.pressed_on == Some(top) {
                seq![PointerEvent::Up(id, top), PointerEvent::Click(id, top)]
            } else {
                seq![PointerEvent::Up(id, top)]
            }
        } else {
            Seq::empty()
        },
        None => Seq::empty(),
    }
}

/// Whether the pointer is seen at `position` and was last seen elsewhere.
pub open spec fn moved(v: Interaction, position: Option<Position>) -> bool {
    position is Some && v.last_position is Some && position != v.last_position
}

/// The way from `from` to `to`.
pub open spec fn delta_between(from: Position, to: Position) -> Delta {
    Delta { dx: (to.x - from.x) as i64, dy: (to.y - from.y) as i64 }
}

/// The drag events: while the button stays down, the first move after the
/// press gives `DragStart` and each later move `Drag`; when the button goes
/// up after a `DragStart`, `DragEnd`. All of them name the entity on which
/// the button went down, wherever the pointer is now.
pub open spec fn drag_events(
    id: PointerId,
    v: Interaction,
    is_down: bool,
    position: Option<Position>,
) -> Seq<PointerEvent> {
    if v.was_down && is_down && moved(v, position) {
        match v.drag {
            DragState::Armed(e) => seq![PointerEvent::DragStart(id, e)],
            DragState::Dragging(e) => seq![
                PointerEvent::Drag(id, e, delta_between(v.last_position->0, position->0)),
            ],
            DragState::Idle => Seq::empty(),
        }
    } else if v.was_down && !is_down {
        match v.drag {
            DragState::Dragging(e) => seq![PointerEvent::DragEnd(id, e)],
            _ => Seq::empty(),
        }
    } else {
        Seq::empty()
    }
}

/// The events of one tick for one pointer: first every `Out`, then every
/// `Over`, then the button's events, then the drag's.
pub open spec fn tick_events(
    id: PointerId,
    v: Interaction,
    is_down: bool,
    position: Option<Position>,
) -> Seq<PointerEvent> {
    out_events(id, v.previous, v.current) + over_events(id, v.current, v.previous) + press_events(
        id,
        v,
        is_down,
    ) + drag_events(id, v, is_down, position)
}

/// The state after one tick: this tick's hits have become the previous
/// ones, and the press and the drag are carried on.
pub open spec fn tick_state(v: Interaction, is_down: bool, position: Option<Position>) -> Interaction {
    Interaction {
        current: v.current,
        previous: v.current,
        was_down: is_down,
        pressed_on: if !v.was_down && is_down {
            top_hit(v.current)
        } else if !is_down {
            None
        } else {
            match v.pressed_on {
                Some(e) => if hit_in(v.current, e) {
                    Some(e)
                } else {
                    None
                },
                None => None,
            }
        },
        drag: if !v.was_down && is_down {
            match top_hit(v.current) {
                Some(top) => DragState::Armed(top),
                None => DragState::Idle,
            }
        } else if !is_down {
            DragState::Idle
        } else if moved(v, position) {
            match v.drag {
                DragState::Armed(e) => DragState::Dragging(e),
                other => other,
            }
        } else {
            v.drag
        },
        last_position: if position is Some {
            position
        } else {
            v.last_position
        },
    }
}

/// Returns a copy of the hits.
fn copy_hits(hits: &Vec<HitEntry>) -> (r: Vec<HitEntry>)
    ensures
        r@ == hits@,
{
    let mut r: Vec<HitEntry> = Vec::new();
    let mut i: usize = 0;
    while i < hits.len()
        invariant
            i <= hits.len(),
            r@ == hits@.take(i as int),
        decreases hits.len() - i,
    {
        r.push(hits[i]);
        proof {
            assert(hits@.take(i + 1) == hits@.take(i as int).push(hits@[i as int]));
        }
        i += 1;
    }
    proof {
        assert(hits@.take(hits.len() as int) == hits@);
    }
    r
}

impl PointerInteraction {
    /// The state of a pointer that has hit nothing yet.
    pub open spec fn fresh() -> Interaction {
        Interaction {
            current: Seq::empty(),
            previous: Seq::empty(),
            was_down: false,
            pressed_on: None,
            drag: DragState::Idle,
            last_position: None,
        }
    }

    /// Creates the state of a pointer that has hit nothing yet.
    pub fn new() -> (r: PointerInteraction)
        ensures
            r@ == PointerInteraction::fresh(),
    {
        PointerInteraction {
            current: Vec::new(),
            previous: Vec::new(),
            was_down: false,
            pressed_on: None,
            drag: DragState::Idle,
            last_position: None,
        }
    }

    /// Returns a copy of this state.
    pub fn duplicate(&self) -> (r: PointerInteraction)
        ensures
            r@ == self@,
    {
        PointerInteraction {
            current: copy_hits(&self.current),
            previous: copy_hits(&self.previous),
            was_down: self.was_down,
            pressed_on: self.pressed_on,
            drag: self.drag,
            last_position: self.last_position,
        }
    }

    /// Returns the entity of the top hit of this tick.
    pub fn top(&self) -> (r: Option<EntityId>)
        ensures
            r == top_hit(self@.current),
    {
        if self.current.len() > 0 {
            Some(self.current[0].entity)
        } else {
            None
        }
    }

    /// Stores the hit-list of this tick. The list of the tick before stays
    /// as it is until the events have been synthesized.
    pub fn set_hits(&mut self, hits: Vec<HitEntry>)
        ensures
            final(self)@ == (Interaction { current: hits@, ..old(self)@ }),
    {
        self.current = hits;
    }

    /// Appends the `Out` events of this tick.
    fn push_out_events(&self, id: PointerId, events: &mut Vec<PointerEvent>)
        ensures
            final(events)@ == old(events)@ + out_events(id, self@.previous, self@.current),
    {
        let mut i: usize = 0;
        while i < self.previous.len()
            invariant
                i <= self.previous.len(),
                events@ == old(events)@ + out_events(
                    id,
                    self.previous@.take(i as int),
                    self.current@,
                ),
            decreases self.previous.len() - i,
        {
            proof {
                assert(self.previous@.take(i + 1).drop_last() == self.previous@.take(i as int));
            }
            let entity = self.previous[i].entity;
            if !is_hit(&self.current, entity) {
                events.push(PointerEvent::Out(id, entity));
            }
            i += 1;
        }
        proof {
            assert(self.previous@.take(self.previous.len() as int) == self.previous@);
        }
    }

    /// Appends the `Over` events of this tick.
    fn push_over_events(&self, id: PointerId, events: &mut Vec<PointerEvent>)
        ensures
            final(events)@ == old(events)@ + over_events(id, self@.current, self@.previous),
    {
        let mut i: usize = 0;
        while i < self.current.len()
            invariant
                i <= self.current.len(),
                events@ == old(events)@ + over_events(
                    id,
                    self.current@.take(i as int),
                    self.previous@,
                ),
            decreases self.current.len() - i,
        {
            proof {
                assert(self.current@.take(i + 1).drop_last() == self.current@.take(i as int));
            }
            let entity = self.current[i].entity;
            if !is_hit(&self.previous, entity) {
                events.push(PointerEvent::Over(id, entity));
            }
            i += 1;
        }
        proof {
            assert(self.current@.take(self.current.len() as int) == self.current@);
        }
    }

    /// Synthesizes the events of one tick for pointer `id`, whose primary
    /// button is down or not as `is_down` says and which is seen at
    /// `position`, and then makes this tick's hit-list the previous one.
    pub fn synthesize(&mut self, id: PointerId, is_down: bool, position: Option<Position>) -> (events:
        Vec<PointerEvent>)
        ensures
            events@ == tick_events(id, old(self)@, is_down, position),
            final(self)@ == tick_state(old(self)@, is_down, position),
    {
        let mut events: Vec<PointerEvent> = Vec::new();
        self.push_out_events(id, &mut events);
        self.push_over_events(id, &mut events);
        let ghost diff = events@;
        let top = self.top();
        let was_moved = match (position, self.last_position) {
            (Some(now), Some(last)) => now != last,
            _ => false,
        };
        match top {
            Some(entity) => {
                if !self.was_down && is_down {
                    events.push(PointerEvent::Down(id, entity));
                } else if self.was_down && !is_down {
                    events.push(PointerEvent::Up(id, entity));
                    match self.pressed_on {
                        Some(pressed) => {
                            if pressed == entity {
                                events.push(PointerEvent::Click(id, entity));
                            }
                        },
                        None => {},
                    }
                }
            },
            None => {},
        }
        proof {
            assert(events@ == diff + press_events(id, old(self)@, is_down));
        }
        let ghost pressed = events@;
        if self.was_down && is_down && was_moved {
            match self.drag {
                DragState::Armed(entity) => {
                    events.push(PointerEvent::DragStart(id, entity));
                },
                DragState::Dragging(entity) => {
                    match (position, self.last_position) {
                        (Some(now), Some(last)) => {
                            let delta = Delta {
                                dx: now.x as i64 - last.x as i64,
                                dy: now.y as i64 - last.y as i64,
                            };
                            events.push(PointerEvent::Drag(id, entity, delta));
                        },
                        _ => {},
                    }
                },
                DragState::Idle => {},
            }
        } else if self.was_down && !is_down {
            match self.drag {
                DragState::Dragging(entity) => {
                    events.push(PointerEvent::DragEnd(id, entity));
                },
                _ => {},
            }
        }
        proof {
            assert(events@ == pressed + drag_events(id, old(self)@, is_down, position));
        }
        if !self.was_down && is_down {
            self.pressed_on = top;
            self.drag = match top {
                Some(entity) => DragState::Armed(entity),
                None => DragState::Idle,
            };
        } else if !is_down {
            self.pressed_on = None;
            self.drag = DragState::Idle;
        } else {
            match self.pressed_on {
                Some(entity) => {
                    if !is_hit(&self.current, entity) {
                        self.pressed_on = None;
                    }
                },
                None => {},
            }
            if was_moved {
                match self.drag {
                    DragState::Armed(entity) => {
                        self.drag = DragState::Dragging(entity);
                    },
                    _ => {},
                }
            }
        }
        if position.is_some() {
            self.last_position = position;
        }
        self.was_down = is_down;
        self.previous = copy_hits(&self.current);
        events
    }
}

/// Synthesizes the events of one tick for `pointer`. Where the pointer has
/// no interaction state, nothing is compared and no event comes out.
pub fn update_focus(pointer: &Pointer, interaction: Option<PointerInteraction>) -> (r: (
    Option<PointerInteraction>,
    Vec<PointerEvent>,
))
    ensures
        interaction is None ==> r.0 is None && r.1@ == Seq::<PointerEvent>::empty(),
        interaction is Some ==> r.0 is Some && r.0->0@ == tick_state(
            interaction->0@,
            pointer.press.primary,
            position_of(*pointer),
        ) && r.1@ == tick_events(
            pointer.id,
            interaction->0@,
            pointer.press.primary,
            position_of(*pointer),
        ),
{
    match interaction {
        Some(mut state) => {
            let position = match pointer.location.location {
                Some(location) => Some(location.position),
                None => None,
            };
            let events = state.synthesize(pointer.id, pointer.press.primary, position);
            (Some(state), events)
        },
        None => (None, Vec::new()),
    }
}

/// Where the pointer is on its target, if it is on one.
pub open spec fn position_of(pointer: Pointer) -> Option<Position> {
    match pointer.location.location {
        Some(location) => Some(location.position),
        None => None,
    }
}

/// Every `Out` names an entity that was hit and is hit no more, and each
/// such entity gets one.
pub proof fn lemma_out_events(id: PointerId, previous: Seq<HitEntry>, current: Seq<HitEntry>)
    ensures
        forall|k: int|
            0 <= k < out_events(id, previous, current).len() ==> match #[trigger] out_events(
                id,
                previous,
                current,
            )[k] {
                PointerEvent::Out(p, e) => p == id && hit_in(previous, e) && !hit_in(current, e),
                _ => false,
            },
        forall|e: EntityId|
            #[trigger] hit_in(previous, e) && !hit_in(current, e) ==> out_events(
                id,
                previous,
                current,
            ).contains(PointerEvent::Out(id, e)),
    decreases previous.len(),
{
    let out = out_events(id, previous, current);
    if previous.len() > 0 {
        let rest_hits = previous.drop_last();
        lemma_out_events(id, rest_hits, current);
        let rest = out_events(id, rest_hits, current);
        assert forall|k: int| 0 <= k < out.len() implies match #[trigger] out[k] {
            PointerEvent::Out(p, e) => p == id && hit_in(previous, e) && !hit_in(current, e),
            _ => false,
        } by {
            if k < rest.len() {
                assert(out[k] == rest[k]);
                match rest[k] {
                    PointerEvent::Out(p, e) => {
                        let i = choose|i: int|
                            0 <= i < rest_hits.len() && (#[trigger] rest_hits[i]).entity == e;
                        assert(previous[i].entity == e);
                    },
                    _ => {},
                }
            } else {
                assert(previous[previous.len() - 1].entity == previous.last().entity);
            }
        }
        assert forall|e: EntityId| #[trigger] hit_in(previous, e) && !hit_in(current, e) implies out.contains(
            PointerEvent::Out(id, e),
        ) by {
            let i = choose|i: int| 0 <= i < previous.len() && (#[trigger] previous[i]).entity == e;
            if i < rest_hits.len() {
                assert(rest_hits[i].entity == e);
                assert(hit_in(rest_hits, e));
                assert(rest.contains(PointerEvent::Out(id, e)));
                let k = choose|k: int| 0 <= k < rest.len() && rest[k] == PointerEvent::Out(id, e);
                assert(out[k] == PointerEvent::Out(id, e));
            } else {
                assert(out[out.len() - 1] == PointerEvent::Out(id, e));
            }
        }
    }
}

/// Every `Over` names an entity that is hit and was not hit before, and
/// each such entity gets one.
pub proof fn lemma_over_events(id: PointerId, current: Seq<HitEntry>, previous: Seq<HitEntry>)
    ensures
        forall|k: int|
            0 <= k < over_events(id, current, previous).len() ==> match #[trigger] over_events(
                id,
                current,
                previous,
            )[k] {
                PointerEvent::Over(p, e) => p == id && hit_in(current, e) && !hit_in(previous, e),
                _ => false,
            },
        forall|e: EntityId|
            #[trigger] hit_in(current, e) && !hit_in(previous, e) ==> over_events(
                id,
                current,
                previous,
            ).contains(PointerEvent::Over(id, e)),
    decreases current.len(),
{
    let over = over_events(id, current, previous);
    if current.len() > 0 {
        let rest_hits = current.drop_last();
        lemma_over_events(id, rest_hits, previous);
        let rest = over_events(id, rest_hits, previous);
        assert forall|k: int| 0 <= k < over.len() implies match #[trigger] over[k] {
            PointerEvent::Over(p, e) => p == id && hit_in(current, e) && !hit_in(previous, e),
            _ => false,
        } by {
            if k < rest.len() {
                assert(over[k] == rest[k]);
                match rest[k] {
                    PointerEvent::Over(p, e) => {
                        let i = choose|i: int|
                            0 <= i < rest_hits.len() && (#[trigger] rest_hits[i]).entity == e;
                        assert(current[i].entity == e);
                    },
                    _ => {},
                }
            } else {
                assert(current[current.len() - 1].entity == current.last().entity);
            }
        }
        assert forall|e: EntityId| #[trigger] hit_in(current, e) && !hit_in(previous, e) implies over.contains(
            PointerEvent::Over(id, e),
        ) by {
            let i = choose|i: int| 0 <= i < current.len() && (#[trigger] current[i]).entity == e;
            if i < rest_hits.len() {
                assert(rest_hits[i].entity == e);
                assert(hit_in(rest_hits, e));
                assert(rest.contains(PointerEvent::Over(id, e)));
                let k = choose|k: int| 0 <= k < rest.len() && rest[k] == PointerEvent::Over(id, e);
                assert(over[k] == PointerEvent::Over(id, e));
            } else {
                assert(over[over.len() - 1] == PointerEvent::Over(id, e));
            }
        }
    }
}

/// Ordering. In the events of a tick every `Out` stands before every
/// `Over`, whatever the two hit-lists hold.
pub proof fn lemma_out_before_over(
    id: PointerId,
    v: Interaction,
    is_down: bool,
    position: Option<Position>,
)
    ensures
        forall|i: int, j: int|
            0 <= i < tick_events(id, v, is_down, position).len() && 0 <= j < tick_events(
                id,
                v,
                is_down,
                position,
            ).len() && (#[trigger] tick_events(id, v, is_down, position)[i]) is Out && (
            #[trigger] tick_events(id, v, is_down, position)[j]) is Over ==> i < j,
{
    lemma_out_events(id, v.previous, v.current);
    lemma_over_events(id, v.current, v.previous);
}

/// A click needs an unbroken press. A `Click` comes out only when the
/// button goes up over the entity on which the press is remembered to have
/// begun.
pub proof fn lemma_click_needs_press(
    id: PointerId,
    v: Interaction,
    is_down: bool,
    position: Option<Position>,
)
    ensures
        forall|k: int|
            0 <= k < tick_events(id, v, is_down, position).len() ==> match #[trigger] tick_events(
                id,
                v,
                is_down,
                position,
            )[k] {
                PointerEvent::Click(p, e) => p == id && v.was_down && !is_down && v.pressed_on
                    == Some(e) && top_hit(v.current) == Some(e) && tick_events(
                    id,
                    v,
                    is_down,
                    position,
                ).contains(PointerEvent::Up(id, e)),
                _ => true,
            },
{
    lemma_out_events(id, v.previous, v.current);
    lemma_over_events(id, v.current, v.previous);
    let a = out_events(id, v.previous, v.current);
    let b = over_events(id, v.current, v.previous);
    let evs = tick_events(id, v, is_down, position);
    assert forall|k: int| 0 <= k < evs.len() implies match #[trigger] evs[k] {
        PointerEvent::Click(p, e) => p == id && v.was_down && !is_down && v.pressed_on == Some(e)
            && top_hit(v.current) == Some(e) && evs.contains(PointerEvent::Up(id, e)),
        _ => true,
    } by {
        match evs[k] {
            PointerEvent::Click(p, e) => {
                assert(k == a.len() + b.len() + 1);
                assert(evs[k - 1] == PointerEvent::Up(id, e));
            },
            _ => {},
        }
    }
}

/// A press is remembered only from a `Down`, and only until an `Out`. If
/// the state after a tick remembers a press on an entity, then either this
/// tick gave a `Down` on it, or the state before remembered the press, the
/// button stayed down and this tick gave no `Out` on the entity.
pub proof fn lemma_press_remembered(
    id: PointerId,
    v: Interaction,
    is_down: bool,
    position: Option<Position>,
    entity: EntityId,
)
    requires
        tick_state(v, is_down, position).pressed_on == Some(entity),
    ensures
        tick_events(id, v, is_down, position).contains(PointerEvent::Down(id, entity)) || (
        v.pressed_on == Some(entity) && v.was_down && is_down && !tick_events(
            id,
            v,
            is_down,
            position,
        ).contains(PointerEvent::Out(id, entity))),
{
    lemma_out_events(id, v.previous, v.current);
    lemma_over_events(id, v.current, v.previous);
    let a = out_events(id, v.previous, v.current);
    let b = over_events(id, v.current, v.previous);
    let c = press_events(id, v, is_down);
    let d = drag_events(id, v, is_down, position);
    let evs = tick_events(id, v, is_down, position);
    if !v.was_down && is_down {
        assert(evs[(a.len() + b.len()) as int] == PointerEvent::Down(id, entity));
    } else {
        if evs.contains(PointerEvent::Out(id, entity)) {
            let k = choose|k: int| 0 <= k < evs.len() && evs[k] == PointerEvent::Out(id, entity);
            assert(k < a.len());
            assert(a[k] == PointerEvent::Out(id, entity));
        }
    }
}

/// No second `Down`. While the button was already down, a tick gives no
/// `Down`, and a tick always remembers how it found the button.
pub proof fn lemma_no_repeated_down(
    id: PointerId,
    v: Interaction,
    is_down: bool,
    position: Option<Position>,
)
    ensures
        tick_state(v, is_down, position).was_down == is_down,
        v.was_down ==> forall|k: int|
            0 <= k < tick_events(id, v, is_down, position).len() ==> !(#[trigger] tick_events(
                id,
                v,
                is_down,
                position,
            )[k] is Down),
{
    lemma_out_events(id, v.previous, v.current);
    lemma_over_events(id, v.current, v.previous);
}

/// What one tick brings for one pointer: the hits of the tick, whether the
/// primary button is down, and where the pointer is seen.
pub struct TickInput {
    pub hits: Seq<HitEntry>,
    pub is_down: bool,
    pub position: Option<Position>,
}

/// The state at the moment the events of tick `k` are synthesized: `k`
/// ticks have passed since `start`, and the hits of tick `k` are stored.
pub open spec fn state_at(start: Interaction, inputs: Seq<TickInput>, k: int) -> Interaction
    recommends
        0 <= k < inputs.len(),
    decreases k,
{
    if k <= 0 {
        Interaction { current: inputs[0].hits, ..start }
    } else {
        Interaction {
            current: inputs[k].hits,
            ..tick_state(
                state_at(start, inputs, k - 1),
                inputs[k - 1].is_down,
                inputs[k - 1].position,
            )
        }
    }
}

/// The events of tick `k`.
pub open spec fn events_at(id: PointerId, start: Interaction, inputs: Seq<TickInput>, k: int) -> Seq<
    PointerEvent,
>
    recommends
        0 <= k < inputs.len(),
{
    tick_events(id, state_at(start, inputs, k), inputs[k].is_down, inputs[k].position)
}

/// While a press on an entity is remembered at tick `k`, an earlier tick
/// gave the `Down` on it and no tick after that one and before `k` gave an
/// `Out` on it. Returns that earlier tick.
pub proof fn lemma_pressed_since(
    id: PointerId,
    start: Interaction,
    inputs: Seq<TickInput>,
    k: int,
    entity: EntityId,
) -> (m: int)
    requires
        start.pressed_on is None,
        0 <= k < inputs.len(),
        state_at(start, inputs, k).pressed_on == Some(entity),
    ensures
        0 <= m < k,
        events_at(id, start, inputs, m).contains(PointerEvent::Down(id, entity)),
        forall|t: int|
            m < t < k ==> !(#[trigger] events_at(id, start, inputs, t)).contains(
                PointerEvent::Out(id, entity),
            ),
    decreases k,
{
    let before = state_at(start, inputs, k - 1);
    lemma_press_remembered(id, before, inputs[k - 1].is_down, inputs[k - 1].position, entity);
    if events_at(id, start, inputs, k - 1).contains(PointerEvent::Down(id, entity)) {
        k - 1
    } else {
        lemma_pressed_since(id, start, inputs, k - 1, entity)
    }
}

/// A click needs an unbroken press, over any run of ticks. If tick `n`
/// gives a `Click` on an entity, then an earlier tick gave a `Down` on the
/// same entity, and no tick after the `Down`, up to and including tick `n`,
/// gave an `Out` on it. Returns the tick of the `Down`.
pub proof fn lemma_click_follows_down(
    id: PointerId,
    start: Interaction,
    inputs: Seq<TickInput>,
    n: int,
    entity: EntityId,
) -> (m: int)
    requires
        start.pressed_on is None,
        0 <= n < inputs.len(),
        events_at(id, start, inputs, n).contains(PointerEvent::Click(id, entity)),
    ensures
        0 <= m < n,
        events_at(id, start, inputs, m).contains(PointerEvent::Down(id, entity)),
        events_at(id, start, inputs, n).contains(PointerEvent::Up(id, entity)),
        forall|t: int|
            m < t <= n ==> !(#[trigger] events_at(id, start, inputs, t)).contains(
                PointerEvent::Out(id, entity),
            ),
{
    let v = state_at(start, inputs, n);
    let evs = events_at(id, start, inputs, n);
    lemma_click_needs_press(id, v, inputs[n].is_down, inputs[n].position);
    let k = choose|k: int| 0 <= k < evs.len() && evs[k] == PointerEvent::Click(id, entity);
    assert(evs[k] == PointerEvent::Click(id, entity));
    assert(v.pressed_on == Some(entity));
    assert(hit_in(v.current, entity)) by {
        assert(v.current[0].entity == entity);
    }
    lemma_out_events(id, v.previous, v.current);
    if evs.contains(PointerEvent::Out(id, entity)) {
        let j = choose|j: int| 0 <= j < evs.len() && evs[j] == PointerEvent::Out(id, entity);
        lemma_over_events(id, v.current, v.previous);
        let a = out_events(id, v.previous, v.current);
        assert(j < a.len());
        assert(a[j] == PointerEvent::Out(id, entity));
    }
    lemma_pressed_since(id, start, inputs, n, entity)
}

} // verus!
