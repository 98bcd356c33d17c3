//! Selection of entities: which selection events a tick's pointer events
//! call for, and what those events do to the selection flags.

use vstd::prelude::*;
use crate::focus::PointerEvent;
use crate::pointer::{
    has_pointer, record_of, EntityId, Pointer, PointerId, PointerMultiselect, PointerRegistry,
};

verus! {

/// Tracks the current selection state of an entity.
#[derive(Clone, Copy, Debug, PartialEq, Eq, Structural)]
pub struct PickSelection {
    pub is_selected: bool,
}

impl Default for PickSelection {
    fn default() -> (r: Self)
        ensures
            !r.is_selected,
    {
        PickSelection { is_selected: false }
    }
}

/// A change of one entity's selection.
#[derive(Clone, Copy, Debug, PartialEq, Eq, Structural)]
pub enum PointerSelectionEvent {
    JustSelected(EntityId),
    JustDeselected(EntityId),
}

/// Marks an entity for which a pointer-down must not deselect the others.
/// This is useful for gizmos or other pickable UI entities.
#[derive(Clone, Copy, Debug, PartialEq, Eq, Structural)]
pub struct NoDeselect {
    pub entity: EntityId,
}

/// A selectable entity and its selection state.
#[derive(Clone, Copy, Debug, PartialEq, Eq, Structural)]
pub struct Selectable {
    pub entity: EntityId,
    pub selection: PickSelection,
}

/// Whether `entity` carries the marker.
pub open spec fn marked(marks: Seq<NoDeselect>, entity: EntityId) -> bool {
    exists|i: int| 0 <= i < marks.len() && (#[trigger] marks[i]).entity == entity
}

/// Whether `entity` is among the selectables.
pub open spec fn has_selectable(s: Seq<Selectable>, entity: EntityId) -> bool {
    exists|i: int| 0 <= i < s.len() && (#[trigger] s[i]).entity == entity
}

/// An index of `entity` among the selectables; the only one where entities
/// are unique.
pub open spec fn selectable_index(s: Seq<Selectable>, entity: EntityId) -> int {
    choose|i: int| 0 <= i < s.len() && (#[trigger] s[i]).entity == entity
}

/// No entity occurs twice among the selectables.
pub open spec fn unique_entities(s: Seq<Selectable>) -> bool {
    forall|i: int, j: int|
        0 <= i < s.len() && 0 <= j < s.len() && (#[trigger] s[i]).entity == (
        #[trigger] s[j]).entity ==> i == j
}

/// Whether multiselect is active for pointer `id`; it is not for an unknown
/// pointer.
pub open spec fn multiselect_of(pointers: Seq<Pointer>, id: PointerId) -> bool {
    has_pointer(pointers, id) && record_of(pointers, id).multiselect.is_pressed
}

/// One deselection for each selected entity, in the order of the
/// selectables.
pub open spec fn deselect_all(s: Seq<Selectable>) -> Seq<PointerSelectionEvent>
    decreases s.len(),
{
    if s.len() == 0 {
        Seq::empty()
    } else if s.last().selection.is_selected {
        deselect_all(s.drop_last()).push(PointerSelectionEvent::JustDeselected(s.last().entity))
    } else {
        deselect_all(s.drop_last())
    }
}

/// What one pointer event asks of the selection as a pointer-down: a down
/// without multiselect on an entity without the marker deselects
/// everything; any other event asks nothing.
pub open spec fn down_events(
    ev: PointerEvent,
    pointers: Seq<Pointer>,
    marks: Seq<NoDeselect>,
    s: Seq<Selectable>,
) -> Seq<PointerSelectionEvent> {
    match ev {
        PointerEvent::Down(id, target) => if !multiselect_of(pointers, id) && !marked(
            marks,
            target,
        ) {
            deselect_all(s)
        } else {
            Seq::empty()
        },
        _ => Seq::empty(),
    }
}

/// What one pointer event asks of the selection as a click: with
/// multiselect the target's selection is toggled, without it the target is
/// selected unless it is already; a target that is not selectable and any
/// other event ask nothing.
pub open spec fn click_events(
    ev: PointerEvent,
    pointers: Seq<Pointer>,
    s: Seq<Selectable>,
) -> Seq<PointerSelectionEvent> {
    match ev {
        PointerEvent::Click(id, target) => if has_selectable(s, target) {
            let selected = s[selectable_index(s, target)].selection.is_selected;
            if multiselect_of(pointers, id) {
                if selected {
                    seq![PointerSelectionEvent::JustDeselected(target)]
                } else {
                    seq![PointerSelectionEvent::JustSelected(target)]
                }
            } else if !selected {
                seq![PointerSelectionEvent::JustSelected(target)]
            } else {
                Seq::empty()
            }
        } else {
            Seq::empty()
        },
        _ => Seq::empty(),
    }
}

/// The selection events of the pointer-downs among `events`, in order.
pub open spec fn all_down_events(
    events: Seq<PointerEvent>,
    pointers: Seq<Pointer>,
    marks: Seq<NoDeselect>,
    s: Seq<Selectable>,
) -> Seq<PointerSelectionEvent>
    decreases events.len(),
{
    if events.len() == 0 {
        Seq::empty()
    } else {
        all_down_events(events.drop_last(), pointers, marks, s) + down_events(
            events.last(),
            pointers,
            marks,
            s,
        )
    }
}

/// The selection events of the clicks among `events`, in order.
pub open spec fn all_click_events(
    events: Seq<PointerEvent>,
    pointers: Seq<Pointer>,
    s: Seq<Selectable>,
) -> Seq<PointerSelectionEvent>
    decreases events.len(),
{
    if events.len() == 0 {
        Seq::empty()
    } else {
        all_click_events(events.drop_last(), pointers, s) + click_events(
            events.last(),
            pointers,
            s,
        )
    }
}

/// The selection events of one tick: those of the pointer-downs, then those
/// of the clicks. All of them are judged by the selection as it was before
/// the tick.
pub open spec fn selection_events(
    events: Seq<PointerEvent>,
    pointers: Seq<Pointer>,
    marks: Seq<NoDeselect>,
    s: Seq<Selectable>,
) -> Seq<PointerSelectionEvent> {
    all_down_events(events, pointers, marks, s) + all_click_events(events, pointers, s)
}

/// The selectables after one selection event: the event's entity, if it is
/// selectable, is selected or not as the event says.
pub open spec fn event_applied(s: Seq<Selectable>, ev: PointerSelectionEvent) -> Seq<Selectable> {
    let (entity, flag) = match ev {
        PointerSelectionEvent::JustSelected(e) => (e, true),
        PointerSelectionEvent::JustDeselected(e) => (e, false),
    };
    if has_selectable(s, entity) {
        s.update(
            selectable_index(s, entity),
            Selectable { entity, selection: PickSelection { is_selected: flag } },
        )
    } else {
        s
    }
}

/// The selectables after a sequence of selection events, applied in order.
pub open spec fn events_applied(s: Seq<Selectable>, evs: Seq<PointerSelectionEvent>) -> Seq<
    Selectable,
>
    decreases evs.len(),
{
    if evs.len() == 0 {
        s
    } else {
        event_applied(events_applied(s, evs.drop_last()), evs.last())
    }
}

/// Returns whether multiselect is active for pointer `id`.
pub fn is_multiselect(pointers: &PointerRegistry, id: PointerId) -> (r: bool)
    requires
        pointers.wf(),
    ensures
        r == multiselect_of(pointers@, id),
{
    match pointers.find(id) {
        Some(i) => pointers.pointers[i].multiselect.is_pressed,
        None => false,
    }
}

/// Returns whether `entity` carries the marker.
pub fn is_marked(marks: &Vec<NoDeselect>, entity: EntityId) -> (r: bool)
    ensures
        r == marked(marks@, entity),
{
    let mut i: usize = 0;
    while i < marks.len()
        invariant
            i <= marks.len(),
            forall|j: int| 0 <= j < i ==> (#[trigger] marks@[j]).entity != entity,
        decreases marks.len() - i,
    {
        if marks[i].entity == entity {
            return true;
        }
        i += 1;
    }
    false
}

/// Returns the position of `entity` among the selectables.
pub fn find_selectable(selectables: &Vec<Selectable>, entity: EntityId) -> (r: Option<usize>)
    requires
        unique_entities(selectables@),
    ensures
        r is Some == has_selectable(selectables@, entity),
        r is Some ==> r->0 as int == selectable_index(selectables@, entity),
{
    let mut i: usize = 0;
    while i < selectables.len()
        invariant
            unique_entities(selectables@),
            i <= selectables.len(),
            forall|j: int| 0 <= j < i ==> (#[trigger] selectables@[j]).entity != entity,
        decreases selectables.len() - i,
    {
        if selectables[i].entity == entity {
            proof {
                let k = selectable_index(selectables@, entity);
                assert(selectables@[k].entity == selectables@[i as int].entity);
            }
            return Some(i);
        }
        i += 1;
    }
    None
}

/// Returns whether no entity occurs twice among the selectables, which
/// every function that takes selectables asks for.
pub fn are_distinct(selectables: &Vec<Selectable>) -> (ok: bool)
    ensures
        ok == unique_entities(selectables@),
{
    let mut i: usize = 0;
    while i < selectables.len()
        invariant
            i <= selectables.len(),
            forall|a: int, b: int|
                0 <= a < i && a < b < selectables@.len() ==> (#[trigger] selectables@[a]).entity != (
                #[trigger] selectables@[b]).entity,
        decreases selectables.len() - i,
    {
        let mut j: usize = i + 1;
        while j < selectables.len()
            invariant
                i < j <= selectables.len(),
                forall|b: int|
                    i < b < j ==> selectables@[i as int].entity != (#[trigger] selectables@[b]).entity,
            decreases selectables.len() - j,
        {
            if selectables[i].entity == selectables[j].entity {
                proof {
                    assert(selectables@[i as int].entity == selectables@[j as int].entity);
                }
                return false;
            }
            j += 1;
        }
        i += 1;
    }
    proof {
        assert forall|a: int, b: int|
            0 <= a < selectables@.len() && 0 <= b < selectables@.len() && (
            #[trigger] selectables@[a]).entity == (#[trigger] selectables@[b]).entity implies a
            == b by {
            if a < b {
                assert(selectables@[a].entity != selectables@[b].entity);
            }
            if b < a {
                assert(selectables@[b].entity != selectables@[a].entity);
            }
        }
    }
    true
}

/// Appends one deselection for each selected entity.
fn push_deselect_all(selectables: &Vec<Selectable>, out: &mut Vec<PointerSelectionEvent>)
    ensures
        final(out)@ == old(out)@ + deselect_all(selectables@),
{
    let mut i: usize = 0;
    while i < selectables.len()
        invariant
            i <= selectables.len(),
            out@ == old(out)@ + deselect_all(selectables@.take(i as int)),
        decreases selectables.len() - i,
    {
        proof {
            assert(selectables@.take(i + 1).drop_last() == selectables@.take(i as int));
        }
        if selectables[i].selection.is_selected {
            out.push(PointerSelectionEvent::JustDeselected(selectables[i].entity));
        }
        i += 1;
    }
    proof {
        assert(selectables@.take(selectables.len() as int) == selectables@);
    }
}

/// Determines the selection events of one tick from the tick's pointer
/// events, the pointers' multiselect state, the marked entities and the
/// selection as it stands.
pub fn send_selection_events(
    events: &Vec<PointerEvent>,
    pointers: &PointerRegistry,
    no_deselect: &Vec<NoDeselect>,
    selectables: &Vec<Selectable>,
) -> (selection_events: Vec<PointerSelectionEvent>)
    requires
        pointers.wf(),
        unique_entities(selectables@),
    ensures
        selection_events@ == self::selection_events(
            events@,
            pointers@,
            no_deselect@,
            selectables@,
        ),
{
    let mut out: Vec<PointerSelectionEvent> = Vec::new();
    let mut i: usize = 0;
    while i < events.len()
        invariant
            pointers.wf(),
            i <= events.len(),
            out@ == all_down_events(events@.take(i as int), pointers@, no_deselect@, selectables@),
        decreases events.len() - i,
    {
        proof {
            assert(events@.take(i + 1).drop_last() == events@.take(i as int));
        }
        match events[i] {
            PointerEvent::Down(id, target) => {
                let multiselect = is_multiselect(pointers, id);
                let target_should_deselect = !is_marked(no_deselect, target);
                if !multiselect && target_should_deselect {
                    push_deselect_all(selectables, &mut out);
                }
            },
            _ => {},
        }
        i += 1;
    }
    proof {
        assert(events@.take(events.len() as int) == events@);
    }
    let ghost downs = out@;
    let mut k: usize = 0;
    while k < events.len()
        invariant
            pointers.wf(),
            unique_entities(selectables@),
            k <= events.len(),
            out@ == downs + all_click_events(events@.take(k as int), pointers@, selectables@),
        decreases events.len() - k,
    {
        proof {
            assert(events@.take(k + 1).drop_last() == events@.take(k as int));
        }
        match events[k] {
            PointerEvent::Click(id, target) => {
                let multiselect = is_multiselect(pointers, id);
                match find_selectable(selectables, target) {
                    Some(at) => {
                        let selected = selectables[at].selection.is_selected;
                        if multiselect {
                            if selected {
                                out.push(PointerSelectionEvent::JustDeselected(target));
                            } else {
                                out.push(PointerSelectionEvent::JustSelected(target));
                            }
                        } else if !selected {
                            out.push(PointerSelectionEvent::JustSelected(target));
                        }
                    },
                    None => {},
                }
            },
            _ => {},
        }
        k += 1;
    }
    proof {
        assert(events@.take(events.len() as int) == events@);
    }
    out
}

impl PointerSelectionEvent {
    /// Applies the selection events, in order, to the selectables. An event
    /// for an entity that is not selectable changes nothing.
    pub fn receive(events: &Vec<PointerSelectionEvent>, selectables: &mut Vec<Selectable>)
        requires
            unique_entities(old(selectables)@),
        ensures
            final(selectables)@ == events_applied(old(selectables)@, events@),
            unique_entities(final(selectables)@),
    {
        let mut i: usize = 0;
        while i < events.len()
            invariant
                i <= events.len(),
                unique_entities(selectables@),
                selectables@ == events_applied(old(selectables)@, events@.take(i as int)),
            decreases events.len() - i,
        {
            proof {
                assert(events@.take(i + 1).drop_last() == events@.take(i as int));
            }
            let (entity, flag) = match events[i] {
                PointerSelectionEvent::JustSelected(e) => (e, true),
                PointerSelectionEvent::JustDeselected(e) => (e, false),
            };
            match find_selectable(selectables, entity) {
                Some(at) => {
                    let ghost before = selectables@;
                    selectables.set(
                        at,
                        Selectable { entity, selection: PickSelection { is_selected: flag } },
                    );
                    proof {
                        assert forall|a: int, b: int|
                            0 <= a < selectables@.len() && 0 <= b < selectables@.len() && (
                            #[trigger] selectables@[a]).entity == (
                            #[trigger] selectables@[b]).entity implies a == b by {
                            assert(before[a].entity == before[b].entity);
                        }
                    }
                },
                None => {},
            }
            i += 1;
        }
        proof {
            assert(events@.take(events.len() as int) == events@);
        }
    }
}

/// Whether `entity` is selected after `evs`, if `flag` says whether it was
/// before: the last event that names the entity decides.
pub open spec fn flag_after(flag: bool, entity: EntityId, evs: Seq<PointerSelectionEvent>) -> bool
    decreases evs.len(),
{
    if evs.len() == 0 {
        flag
    } else {
        match evs.last() {
            PointerSelectionEvent::JustSelected(e) => if e == entity {
                true
            } else {
                flag_after(flag, entity, evs.drop_last())
            },
            PointerSelectionEvent::JustDeselected(e) => if e == entity {
                false
            } else {
                flag_after(flag, entity, evs.drop_last())
            },
        }
    }
}

/// Selection events change no entity and no position: each selectable
/// stays where it is, and is selected afterwards as the last event that
/// names it says.
pub proof fn lemma_events_applied_pointwise(s: Seq<Selectable>, evs: Seq<PointerSelectionEvent>)
    requires
        unique_entities(s),
    ensures
        events_applied(s, evs).len() == s.len(),
        unique_entities(events_applied(s, evs)),
        forall|i: int|
            0 <= i < s.len() ==> (#[trigger] events_applied(s, evs)[i]).entity == s[i].entity
                && events_applied(s, evs)[i].selection.is_selected == flag_after(
                s[i].selection.is_selected,
                s[i].entity,
                evs,
            ),
    decreases evs.len(),
{
    if evs.len() > 0 {
        lemma_events_applied_pointwise(s, evs.drop_last());
        let mid = events_applied(s, evs.drop_last());
        let after = events_applied(s, evs);
        let entity = match evs.last() {
            PointerSelectionEvent::JustSelected(e) => e,
            PointerSelectionEvent::JustDeselected(e) => e,
        };
        assert(after == event_applied(mid, evs.last()));
        if has_selectable(mid, entity) {
            let k = selectable_index(mid, entity);
            assert forall|i: int| 0 <= i < s.len() implies (#[trigger] after[i]).entity
                == s[i].entity && after[i].selection.is_selected == flag_after(
                s[i].selection.is_selected,
                s[i].entity,
                evs,
            ) by {
                if i != k {
                    assert(mid[i].entity != mid[k].entity);
                }
            }
            assert forall|a: int, b: int|
                0 <= a < after.len() && 0 <= b < after.len() && (#[trigger] after[a]).entity == (
                #[trigger] after[b]).entity implies a == b by {
                assert(mid[a].entity == mid[b].entity);
            }
        } else {
            assert forall|i: int| 0 <= i < s.len() implies (#[trigger] after[i]).entity
                == s[i].entity && after[i].selection.is_selected == flag_after(
                s[i].selection.is_selected,
                s[i].entity,
                evs,
            ) by {
                assert(mid[i].entity != entity);
            }
        }
    }
}

/// After one deselection for each selected entity of `t`, an entity is
/// selected only if it was and is not a selected entity of `t`.
pub proof fn lemma_deselect_all_flag(t: Seq<Selectable>, flag: bool, entity: EntityId)
    ensures
        flag_after(flag, entity, deselect_all(t)) == (flag && !(exists|j: int|
            0 <= j < t.len() && (#[trigger] t[j]).entity == entity && t[j].selection.is_selected)),
    decreases t.len(),
{
    if t.len() > 0 {
        let rest = t.drop_last();
        lemma_deselect_all_flag(rest, flag, entity);
        let named = |x: Seq<Selectable>|
            exists|j: int|
                0 <= j < x.len() && (#[trigger] x[j]).entity == entity && x[j].selection.is_selected;
        if named(rest) {
            let j = choose|j: int|
                0 <= j < rest.len() && (#[trigger] rest[j]).entity == entity
                    && rest[j].selection.is_selected;
            assert(t[j].entity == entity && t[j].selection.is_selected);
        }
        if named(t) && !named(rest) {
            let j = choose|j: int|
                0 <= j < t.len() && (#[trigger] t[j]).entity == entity && t[j].selection.is_selected;
            if j < rest.len() {
                assert(rest[j].entity == entity && rest[j].selection.is_selected);
            }
        }
        if t.last().selection.is_selected {
            let d = deselect_all(rest);
            let e = PointerSelectionEvent::JustDeselected(t.last().entity);
            assert(d.push(e).drop_last() == d);
            if t.last().entity == entity {
                assert(t[t.len() - 1].entity == entity);
            }
        }
    }
}

/// The flag after two runs of events is the flag after the second run,
/// started from the flag after the first.
pub proof fn lemma_flag_after_concat(
    flag: bool,
    entity: EntityId,
    a: Seq<PointerSelectionEvent>,
    b: Seq<PointerSelectionEvent>,
)
    ensures
        flag_after(flag, entity, a + b) == flag_after(flag_after(flag, entity, a), entity, b),
    decreases b.len(),
{
    if b.len() == 0 {
        assert(a + b == a);
    } else {
        assert((a + b).drop_last() == a + b.drop_last());
        assert((a + b).last() == b.last());
        lemma_flag_after_concat(flag, entity, a, b.drop_last());
    }
}

/// Exclusive selection. In a tick that holds one pointer-down, of a pointer
/// without multiselect on an entity without the marker, followed by at most
/// one more event of a pointer without multiselect, at most one entity is
/// selected once the tick's selection events are applied.
pub proof fn lemma_single_select_exclusive(
    id: PointerId,
    target: EntityId,
    then: Seq<PointerEvent>,
    pointers: Seq<Pointer>,
    marks: Seq<NoDeselect>,
    s: Seq<Selectable>,
)
    requires
        unique_entities(s),
        !multiselect_of(pointers, id),
        !marked(marks, target),
        then.len() <= 1,
        forall|i: int|
            0 <= i < then.len() ==> match #[trigger] then[i] {
                PointerEvent::Click(p, _) => !multiselect_of(pointers, p),
                _ => true,
            },
    ensures
        ({
            let events = seq![PointerEvent::Down(id, target)] + then;
            let after = events_applied(s, selection_events(events, pointers, marks, s));
            &&& after.len() == s.len()
            &&& forall|a: int, b: int|
                0 <= a < after.len() && 0 <= b < after.len() && (
                #[trigger] after[a]).selection.is_selected && (
                #[trigger] after[b]).selection.is_selected ==> a == b
            &&& then.len() == 0 ==> forall|a: int|
                0 <= a < after.len() ==> !(#[trigger] after[a]).selection.is_selected
        }),
{
    let down = PointerEvent::Down(id, target);
    let one = seq![down];
    let events = one + then;
    let none = Seq::<PointerEvent>::empty();
    let nothing = Seq::<PointerSelectionEvent>::empty();
    let d = deselect_all(s);
    assert(one.drop_last() == none);
    assert(all_down_events(none, pointers, marks, s) == nothing);
    assert(all_click_events(none, pointers, s) == nothing);
    assert(all_down_events(one, pointers, marks, s) == d);
    assert(all_click_events(one, pointers, s) == nothing);
    let evs = selection_events(events, pointers, marks, s);
    lemma_events_applied_pointwise(s, evs);
    let after = events_applied(s, evs);
    if then.len() == 0 {
        assert(events == one);
        assert(evs == d);
        assert forall|i: int| 0 <= i < s.len() implies !(#[trigger] after[i]).selection.is_selected by {
            lemma_deselect_all_flag(s, s[i].selection.is_selected, s[i].entity);
        }
    } else {
        assert(events.drop_last() == one);
        assert(events.last() == then[0]);
        let d2 = down_events(then[0], pointers, marks, s);
        let c = click_events(then[0], pointers, s);
        assert(d2 == d || d2 == nothing);
        assert(evs == (d + d2) + c);
        assert forall|i: int| 0 <= i < s.len() && (#[trigger] after[i]).selection.is_selected implies (
        match then[0] {
            PointerEvent::Click(_, t) => s[i].entity == t,
            _ => false,
        }) by {
            let flag = s[i].selection.is_selected;
            let e = s[i].entity;
            lemma_deselect_all_flag(s, flag, e);
            lemma_deselect_all_flag(s, false, e);
            lemma_flag_after_concat(flag, e, d, d2);
            lemma_flag_after_concat(flag, e, d + d2, c);
            assert(!flag_after(flag, e, d + d2));
            if c.len() > 0 {
                assert(c.drop_last() == nothing);
            }
        }
    }
}

/// The state of the four keys that switch multiselect on.
#[derive(Clone, Copy, Debug)]
pub struct ModifierKeys {
    pub l_control: bool,
    pub r_control: bool,
    pub l_shift: bool,
    pub r_shift: bool,
}

impl ModifierKeys {
    /// Whether any of the four keys is pressed.
    pub open spec fn any_pressed(self) -> bool {
        self.l_control || self.r_control || self.l_shift || self.r_shift
    }
}

/// The records with multiselect switched on or off for every pointer.
pub open spec fn with_multiselect(s: Seq<Pointer>, is_pressed: bool) -> Seq<Pointer> {
    Seq::new(
        s.len(),
        |i: int| Pointer { multiselect: PointerMultiselect { is_pressed }, ..s[i] },
    )
}

/// Unsurprising default multiselect inputs: multiselect is active for every
/// pointer while a control or shift key is pressed.
pub fn multiselect_events(keyboard: &ModifierKeys, pointers: &mut PointerRegistry)
    requires
        old(pointers).wf(),
    ensures
        final(pointers).wf(),
        final(pointers)@ == with_multiselect(old(pointers)@, keyboard.any_pressed()),
{
    let is_multiselect_pressed = keyboard.l_control || keyboard.r_control || keyboard.l_shift
        || keyboard.r_shift;
    let mut i: usize = 0;
    while i < pointers.pointers.len()
        invariant
            i <= pointers@.len(),
            is_multiselect_pressed == keyboard.any_pressed(),
            pointers@.len() == old(pointers)@.len(),
            forall|j: int|
                0 <= j < i ==> (#[trigger] pointers@[j]) == (Pointer {
                    multiselect: PointerMultiselect { is_pressed: keyboard.any_pressed() },
                    ..old(pointers)@[j]
                }),
            forall|j: int| i <= j < pointers@.len() ==> (#[trigger] pointers@[j]) == old(pointers)@[j],
        decreases pointers@.len() - i,
    {
        let mut record = pointers.pointers[i];
        record.multiselect = PointerMultiselect { is_pressed: is_multiselect_pressed };
        pointers.pointers.set(i, record);
        i += 1;
    }
    proof {
        assert forall|a: int, b: int|
            0 <= a < pointers@.len() && 0 <= b < pointers@.len() && (#[trigger] pointers@[a]).id == (
            #[trigger] pointers@[b]).id implies a == b by {
            assert(old(pointers)@[a].id == old(pointers)@[b].id);
        }
        assert(pointers@ =~= with_multiselect(old(pointers)@, keyboard.any_pressed()));
    }
}

} // verus!
