//! Input events and the functions that fold them into the pointer registry.

use vstd::prelude::*;
use crate::pointer::{
    has_pointer, lemma_stored_unique, pointer_index, record_of, stored, unique_ids, without,
    Location,
    Pointer, PointerButton, PointerId, PointerLocation, PointerRegistry, Position,
    PressStage, TargetId,
};

verus! {

/// Pointer input event for button presses. Fires when a pointer button
/// changes state.
#[derive(Clone, Copy, Debug, PartialEq, Eq, Structural)]
pub struct InputPress {
    /// The pointer of this event.
    pub id: PointerId,
    /// Stage of the button press.
    pub press: PressStage,
    /// The pointer button changing in this event.
    pub button: PointerButton,
}

/// The records after one button event: the button of the event's pointer is
/// down after `Down` and up after `Up`; an unknown pointer gets a record.
pub open spec fn press_applied(s: Seq<Pointer>, ev: InputPress) -> Seq<Pointer> {
    let r = record_of(s, ev.id);
    stored(
        s,
        Pointer { press: r.press.with_button(ev.button, ev.press == PressStage::Down), ..r },
    )
}

/// The records after a sequence of button events, applied in order.
pub open spec fn presses_applied(s: Seq<Pointer>, evs: Seq<InputPress>) -> Seq<Pointer>
    decreases evs.len(),
{
    if evs.len() == 0 {
        s
    } else {
        press_applied(presses_applied(s, evs.drop_last()), evs.last())
    }
}

/// Applies one button event to the registry.
pub fn apply_press(pointers: &mut PointerRegistry, ev: InputPress)
    requires
        old(pointers).wf(),
    ensures
        final(pointers)@ == press_applied(old(pointers)@, ev),
        final(pointers).wf(),
{
    let mut record = pointers.get(ev.id);
    record.press.set(ev.button, ev.press == PressStage::Down);
    pointers.upsert(record);
}

impl InputPress {
    /// Create a new pointer button down event.
    pub fn new_down(id: PointerId, button: PointerButton) -> (r: InputPress)
        ensures
            r == (InputPress { id, press: PressStage::Down, button }),
    {
        InputPress { id, press: PressStage::Down, button }
    }

    /// Create a new pointer button up event.
    pub fn new_up(id: PointerId, button: PointerButton) -> (r: InputPress)
        ensures
            r == (InputPress { id, press: PressStage::Up, button }),
    {
        InputPress { id, press: PressStage::Up, button }
    }

    /// Returns true if this event says that the `button` of the pointer `id`
    /// was just pressed.
    pub fn is_just_down(&self, id: &PointerId, button: PointerButton) -> (r: bool)
        ensures
            r == (*self == (InputPress { id: *id, press: PressStage::Down, button })),
    {
        self.id == *id && self.press == PressStage::Down && self.button == button
    }

    /// Returns true if this event says that the `button` of the pointer `id`
    /// was just released.
    pub fn is_just_up(&self, id: &PointerId, button: PointerButton) -> (r: bool)
        ensures
            r == (*self == (InputPress { id: *id, press: PressStage::Up, button })),
    {
        self.id == *id && self.press == PressStage::Up && self.button == button
    }

    /// Applies the button events of one tick, in order, to the registry.
    pub fn receive(events: &Vec<InputPress>, pointers: &mut PointerRegistry)
        requires
            old(pointers).wf(),
        ensures
            final(pointers)@ == presses_applied(old(pointers)@, events@),
            final(pointers).wf(),
    {
        let mut i: usize = 0;
        while i < events.len()
            invariant
                i <= events.len(),
                pointers.wf(),
                pointers@ == presses_applied(old(pointers)@, events@.take(i as int)),
            decreases events.len() - i,
        {
            apply_press(pointers, events[i]);
            proof {
                assert(events@.take(i + 1).drop_last() == events@.take(i as int));
            }
            i += 1;
        }
        proof {
            assert(events@.take(events.len() as int) == events@);
        }
    }
}

/// A button event that asserts the state the button already has changes
/// nothing.
pub proof fn lemma_press_no_change(s: Seq<Pointer>, ev: InputPress)
    requires
        unique_ids(s),
        has_pointer(s, ev.id),
        record_of(s, ev.id).press.pressed(ev.button) == (ev.press == PressStage::Down),
    ensures
        press_applied(s, ev) == s,
{
    let r = record_of(s, ev.id);
    assert(r.press.with_button(ev.button, ev.press == PressStage::Down) == r.press);
    assert(press_applied(s, ev) =~= s);
}

/// Applying the same button event twice gives what applying it once gives.
pub proof fn lemma_press_idempotent(s: Seq<Pointer>, ev: InputPress)
    requires
        unique_ids(s),
    ensures
        press_applied(press_applied(s, ev), ev) == press_applied(s, ev),
{
    let r = record_of(s, ev.id);
    let down = ev.press == PressStage::Down;
    let r1 = Pointer { press: r.press.with_button(ev.button, down), ..r };
    lemma_stored_unique(s, r1);
    let t = stored(s, r1);
    assert(pointer_index(s, ev.id) == pointer_index(s, r1.id));
    assert(r1.id == ev.id) by {
        if has_pointer(s, ev.id) {
        }
    }
    assert(r1.press.pressed(ev.button) == down);
    lemma_press_no_change(t, ev);
}

/// Pointer input event for pointer moves. Fires when a pointer changes
/// location.
#[derive(Clone, Copy, Debug)]
pub struct InputMove {
    pub id: PointerId,
    pub location: Location,
}

/// The records after one move event: the event's pointer is at the event's
/// location; an unknown pointer gets a record.
pub open spec fn move_applied(s: Seq<Pointer>, ev: InputMove) -> Seq<Pointer> {
    stored(
        s,
        Pointer {
            location: PointerLocation { location: Some(ev.location) },
            ..record_of(s, ev.id)
        },
    )
}

/// The records after a sequence of move events, applied in order.
pub open spec fn moves_applied(s: Seq<Pointer>, evs: Seq<InputMove>) -> Seq<Pointer>
    decreases evs.len(),
{
    if evs.len() == 0 {
        s
    } else {
        move_applied(moves_applied(s, evs.drop_last()), evs.last())
    }
}

/// The records after pointer `id` has left its surface: a known pointer
/// keeps its record, buttons included, and is nowhere; an unknown one gets
/// no record.
pub open spec fn left_applied(s: Seq<Pointer>, id: PointerId) -> Seq<Pointer> {
    if has_pointer(s, id) {
        stored(s, Pointer { location: PointerLocation { location: None }, ..record_of(s, id) })
    } else {
        s
    }
}

/// Applies one move event to the registry.
pub fn apply_move(pointers: &mut PointerRegistry, ev: InputMove)
    requires
        old(pointers).wf(),
    ensures
        final(pointers)@ == move_applied(old(pointers)@, ev),
        final(pointers).wf(),
{
    let mut record = pointers.get(ev.id);
    record.location = PointerLocation { location: Some(ev.location) };
    pointers.upsert(record);
}

/// Records that pointer `id` has left its surface. The pointer keeps its
/// record, so that its buttons are still known when it comes back.
pub fn apply_left(pointers: &mut PointerRegistry, id: PointerId)
    requires
        old(pointers).wf(),
    ensures
        final(pointers)@ == left_applied(old(pointers)@, id),
        final(pointers).wf(),
{
    if pointers.find(id).is_some() {
        let mut record = pointers.get(id);
        record.location = PointerLocation { location: None };
        pointers.upsert(record);
    }
}

impl InputMove {
    /// Create a new move event.
    pub fn new(id: PointerId, location: Location) -> (r: InputMove)
        ensures
            r.id == id,
            r.location == location,
    {
        InputMove { id, location }
    }

    /// Applies the move events of one tick, in order, to the registry.
    pub fn receive(events: &Vec<InputMove>, pointers: &mut PointerRegistry)
        requires
            old(pointers).wf(),
        ensures
            final(pointers)@ == moves_applied(old(pointers)@, events@),
            final(pointers).wf(),
    {
        let mut i: usize = 0;
        while i < events.len()
            invariant
                i <= events.len(),
                pointers.wf(),
                pointers@ == moves_applied(old(pointers)@, events@.take(i as int)),
            decreases events.len() - i,
        {
            apply_move(pointers, events[i]);
            proof {
                assert(events@.take(i + 1).drop_last() == events@.take(i as int));
            }
            i += 1;
        }
        proof {
            assert(events@.take(events.len() as int) == events@);
        }
    }

    /// Returns the pointer of this event.
    pub fn id(&self) -> (r: PointerId)
        ensures
            r == self.id,
    {
        self.id
    }

    /// Returns the location of this event.
    pub fn location(&self) -> (r: &Location)
        ensures
            *r == self.location,
    {
        &self.location
    }
}

/// Which input devices feed the registry.
#[derive(Clone, Copy, Debug)]
pub struct InputPluginSettings {
    pub run_mouse: bool,
    pub run_touch: bool,
}

impl Default for InputPluginSettings {
    fn default() -> (r: Self)
        ensures
            r.run_mouse,
            r.run_touch,
    {
        InputPluginSettings { run_mouse: true, run_touch: true }
    }
}

/// A window and the position of the cursor in it, if the cursor is there.
#[derive(Clone, Copy, Debug)]
pub struct WindowCursor {
    pub target: TargetId,
    pub cursor: Option<Position>,
}

/// The location of the cursor: in the first window that holds it.
pub open spec fn cursor_of(ws: Seq<WindowCursor>) -> Option<Location>
    decreases ws.len(),
{
    if ws.len() == 0 {
        None
    } else {
        match ws[0].cursor {
            Some(position) => Some(Location { target: ws[0].target, position }),
            None => cursor_of(ws.drop_first()),
        }
    }
}

/// The records after the mouse cursor was observed at `cursor`, or on no
/// window at all.
pub open spec fn cursor_applied(s: Seq<Pointer>, cursor: Option<Location>) -> Seq<Pointer> {
    match cursor {
        Some(location) => move_applied(s, InputMove { id: PointerId::Mouse, location }),
        None => left_applied(s, PointerId::Mouse),
    }
}

/// Returns the location of the cursor in the first window that holds it.
pub fn get_cursor_position(windows: &Vec<WindowCursor>) -> (r: Option<Location>)
    ensures
        r == cursor_of(windows@),
        r is None <==> forall|i: int| 0 <= i < windows.len() ==> (#[trigger] windows[i]).cursor is None,
{
    let mut i: usize = 0;
    proof {
        assert(windows@.skip(0) == windows@);
    }
    while i < windows.len()
        invariant
            i <= windows.len(),
            cursor_of(windows@) == cursor_of(windows@.skip(i as int)),
            forall|j: int| 0 <= j < i ==> (#[trigger] windows[j]).cursor is None,
        decreases windows.len() - i,
    {
        proof {
            assert(windows@.skip(i as int).drop_first() == windows@.skip(i + 1));
        }
        match windows[i].cursor {
            Some(position) => {
                return Some(Location { target: windows[i].target, position });
            },
            None => {},
        }
        i += 1;
    }
    None
}

/// Moves the mouse pointer to `try_cursor`, creating the pointer if it is
/// unknown. With no cursor, a known mouse pointer keeps its record and is
/// nowhere.
pub fn update_cursor(pointers: &mut PointerRegistry, try_cursor: Option<Location>)
    requires
        old(pointers).wf(),
    ensures
        final(pointers)@ == cursor_applied(old(pointers)@, try_cursor),
        final(pointers).wf(),
{
    match try_cursor {
        Some(location) => {
            apply_move(pointers, InputMove { id: PointerId::Mouse, location });
        },
        None => {
            apply_left(pointers, PointerId::Mouse);
        },
    }
}

/// Updates the mouse pointer from the windows' cursors, if mouse input is
/// switched on.
pub fn mouse_pick_events(
    settings: &InputPluginSettings,
    windows: &Vec<WindowCursor>,
    pointers: &mut PointerRegistry,
)
    requires
        old(pointers).wf(),
    ensures
        final(pointers).wf(),
        settings.run_mouse ==> final(pointers)@ == cursor_applied(
            old(pointers)@,
            cursor_of(windows@),
        ),
        !settings.run_mouse ==> final(pointers)@ == old(pointers)@,
{
    if settings.run_mouse {
        let try_cursor = get_cursor_position(windows);
        update_cursor(pointers, try_cursor);
    }
}

/// One input of a device, as it arrives.
#[derive(Clone, Copy, Debug)]
pub enum PointerInput {
    /// A button of the pointer changed.
    Press(InputPress),
    /// The pointer was seen at a location.
    Move(InputMove),
    /// The pointer left its surface.
    Left(PointerId),
    /// The pointer's device is gone.
    Removed(PointerId),
}

impl PointerInput {
    /// The pointer that the input belongs to.
    pub open spec fn pointer(self) -> PointerId {
        match self {
            PointerInput::Press(ev) => ev.id,
            PointerInput::Move(ev) => ev.id,
            PointerInput::Left(id) => id,
            PointerInput::Removed(id) => id,
        }
    }

    /// Returns the pointer that the input belongs to.
    pub fn id(&self) -> (r: PointerId)
        ensures
            r == self.pointer(),
    {
        match self {
            PointerInput::Press(ev) => ev.id,
            PointerInput::Move(ev) => ev.id,
            PointerInput::Left(id) => *id,
            PointerInput::Removed(id) => *id,
        }
    }
}

/// Whether the settings let the inputs of pointer `id` through.
pub open spec fn admitted(settings: InputPluginSettings, id: PointerId) -> bool {
    match id {
        PointerId::Mouse => settings.run_mouse,
        PointerId::Touch(_) => settings.run_touch,
    }
}

/// The records after one input; an input of a device that is switched off
/// changes nothing.
pub open spec fn input_applied(
    settings: InputPluginSettings,
    s: Seq<Pointer>,
    input: PointerInput,
) -> Seq<Pointer> {
    if !admitted(settings, input.pointer()) {
        s
    } else {
        match input {
            PointerInput::Press(ev) => press_applied(s, ev),
            PointerInput::Move(ev) => move_applied(s, ev),
            PointerInput::Left(id) => left_applied(s, id),
            PointerInput::Removed(id) => without(s, id),
        }
    }
}

/// The records after the inputs of one tick, applied in the order of their
/// arrival.
pub open spec fn inputs_applied(
    settings: InputPluginSettings,
    s: Seq<Pointer>,
    inputs: Seq<PointerInput>,
) -> Seq<Pointer>
    decreases inputs.len(),
{
    if inputs.len() == 0 {
        s
    } else {
        input_applied(settings, inputs_applied(settings, s, inputs.drop_last()), inputs.last())
    }
}

/// Applies all inputs that have arrived since the tick before, in the order
/// of their arrival, whatever device they come from.
pub fn normalize(
    settings: &InputPluginSettings,
    inputs: &Vec<PointerInput>,
    pointers: &mut PointerRegistry,
)
    requires
        old(pointers).wf(),
    ensures
        final(pointers)@ == inputs_applied(*settings, old(pointers)@, inputs@),
        final(pointers).wf(),
{
    let mut i: usize = 0;
    while i < inputs.len()
        invariant
            i <= inputs.len(),
            pointers.wf(),
            pointers@ == inputs_applied(*settings, old(pointers)@, inputs@.take(i as int)),
        decreases inputs.len() - i,
    {
        proof {
            assert(inputs@.take(i + 1).drop_last() == inputs@.take(i as int));
        }
        let input = inputs[i];
        let on = match input.id() {
            PointerId::Mouse => settings.run_mouse,
            PointerId::Touch(_) => settings.run_touch,
        };
        if on {
            match input {
                PointerInput::Press(ev) => apply_press(pointers, ev),
                PointerInput::Move(ev) => apply_move(pointers, ev),
                PointerInput::Left(id) => apply_left(pointers, id),
                PointerInput::Removed(id) => pointers.remove(id),
            }
        }
        i += 1;
    }
    proof {
        assert(inputs@.take(inputs.len() as int) == inputs@);
    }
}

} // verus!
