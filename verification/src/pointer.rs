//! Pointer identities, their button and location state, and the registry
//! that holds one record for each active pointer.

use vstd::prelude::*;

verus! {

/// Identifies a pointer: the mouse, or a touch contact in a numbered slot.
#[derive(Clone, Copy, Debug, PartialEq, Eq, Structural)]
pub enum PointerId {
    Mouse,
    Touch(u64),
}

/// Identifies a pickable entity.
#[derive(Clone, Copy, Debug, PartialEq, Eq, Structural)]
pub struct EntityId {
    pub bits: u64,
}

/// Identifies the surface that a pointer or a camera is on.
#[derive(Clone, Copy, Debug, PartialEq, Eq, Structural)]
pub enum TargetId {
    Window(u64),
    Image(u64),
}

/// A point on a render target, in fixed-point units.
#[derive(Clone, Copy, Debug, PartialEq, Eq, Structural)]
pub struct Position {
    pub x: i32,
    pub y: i32,
}

/// The stage of a pointer button press event.
#[derive(Clone, Copy, Debug, PartialEq, Eq, Structural)]
pub enum PressStage {
    /// The button was just pressed.
    Down,
    /// The button was just released.
    Up,
}

/// The button that was just pressed or released.
#[derive(Clone, Copy, Debug, PartialEq, Eq, Structural)]
pub enum PointerButton {
    Primary,
    Secondary,
    Middle,
}

/// The state of a pointer's three buttons.
#[derive(Clone, Copy, Debug, PartialEq, Eq, Structural)]
pub struct PointerPress {
    pub primary: bool,
    pub secondary: bool,
    pub middle: bool,
}

impl PointerPress {
    /// The state with no button pressed.
    pub open spec fn released() -> PointerPress {
        PointerPress { primary: false, secondary: false, middle: false }
    }

    /// This state with `button` set to `down` and the other two unchanged.
    pub open spec fn with_button(self, button: PointerButton, down: bool) -> PointerPress {
        match button {
            PointerButton::Primary => PointerPress { primary: down, ..self },
            PointerButton::Secondary => PointerPress { secondary: down, ..self },
            PointerButton::Middle => PointerPress { middle: down, ..self },
        }
    }

    /// Whether `button` is pressed in this state.
    pub open spec fn pressed(self, button: PointerButton) -> bool {
        match button {
            PointerButton::Primary => self.primary,
            PointerButton::Secondary => self.secondary,
            PointerButton::Middle => self.middle,
        }
    }

    /// Returns true if the primary pointer button is pressed.
    pub fn is_primary_pressed(&self) -> (r: bool)
        ensures
            r == self.primary,
    {
        self.primary
    }

    /// Returns true if the secondary pointer button is pressed.
    pub fn is_secondary_pressed(&self) -> (r: bool)
        ensures
            r == self.secondary,
    {
        self.secondary
    }

    /// Returns true if the middle pointer button is pressed.
    pub fn is_middle_pressed(&self) -> (r: bool)
        ensures
            r == self.middle,
    {
        self.middle
    }

    /// Sets one button and leaves the other two as they are.
    pub fn set(&mut self, button: PointerButton, down: bool)
        ensures
            *final(self) == old(self).with_button(button, down),
    {
        match button {
            PointerButton::Primary => { self.primary = down; },
            PointerButton::Secondary => { self.secondary = down; },
            PointerButton::Middle => { self.middle = down; },
        }
    }
}

impl Default for PointerPress {
    fn default() -> (r: Self)
        ensures
            r == PointerPress::released(),
    {
        PointerPress { primary: false, secondary: false, middle: false }
    }
}

/// A camera as the picking pipeline sees it: the target it renders to and
/// its logical viewport rectangle, if it has one.
#[derive(Clone, Copy, Debug)]
pub struct CameraView {
    pub target: TargetId,
    pub viewport: Option<(Position, Position)>,
}

/// Where a pointer is: the render target and the position on it.
#[derive(Clone, Copy, Debug, PartialEq, Eq, Structural)]
pub struct Location {
    pub target: TargetId,
    pub position: Position,
}

impl Location {
    /// Whether `position` lies in the rectangle from `min` to `max`, both
    /// edges included.
    pub open spec fn inside(position: Position, min: Position, max: Position) -> bool {
        &&& min.x <= position.x <= max.x
        &&& min.y <= position.y <= max.y
    }

    /// Whether this location is on the camera's target and within its
    /// viewport.
    pub open spec fn in_viewport(self, camera: CameraView) -> bool {
        &&& self.target == camera.target
        &&& match camera.viewport {
            Some((min, max)) => Self::inside(self.position, min, max),
            None => false,
        }
    }

    /// Returns `true` if this location is within the camera's viewport. The
    /// rectangle includes its minimum and its maximum edge. Returns `false`
    /// if the location and the camera are on different targets, or if the
    /// camera has no viewport.
    pub fn is_in_viewport(&self, camera: &CameraView) -> (r: bool)
        ensures
            r == self.in_viewport(*camera),
    {
        if !self.is_same_target(camera) {
            return false;
        }
        match camera.viewport {
            Some((min, max)) => {
                min.x <= self.position.x && self.position.x <= max.x && min.y <= self.position.y
                    && self.position.y <= max.y
            },
            None => false,
        }
    }

    /// Returns `true` if this location and the camera are on the same target.
    pub fn is_same_target(&self, camera: &CameraView) -> (r: bool)
        ensures
            r == (self.target == camera.target),
    {
        self.target == camera.target
    }
}

/// The location of a pointer, or nothing while the pointer is off every
/// surface.
#[derive(Clone, Copy, Debug)]
pub struct PointerLocation {
    pub location: Option<Location>,
}

impl PointerLocation {
    /// Returns the location if the pointer is active, or `None` if it is
    /// inactive.
    pub fn location(&self) -> (r: Option<&Location>)
        ensures
            r is Some == self.location is Some,
            r is Some ==> *r->0 == self.location->0,
    {
        self.location.as_ref()
    }
}

impl Default for PointerLocation {
    fn default() -> (r: Self)
        ensures
            r.location is None,
    {
        PointerLocation { location: None }
    }
}

/// Whether multiselect is active for a pointer.
#[derive(Clone, Copy, Debug, PartialEq, Eq, Structural)]
pub struct PointerMultiselect {
    pub is_pressed: bool,
}

/// Everything the registry knows of one pointer.
#[derive(Clone, Copy, Debug)]
pub struct Pointer {
    pub id: PointerId,
    pub press: PointerPress,
    pub location: PointerLocation,
    pub multiselect: PointerMultiselect,
    pub enabled: bool,
}

impl Pointer {
    /// The record of a pointer that was just observed: enabled, nowhere, no
    /// button pressed, multiselect off.
    pub open spec fn fresh(id: PointerId) -> Pointer {
        Pointer {
            id,
            press: PointerPress::released(),
            location: PointerLocation { location: None },
            multiselect: PointerMultiselect { is_pressed: false },
            enabled: true,
        }
    }

    /// Creates the record of a pointer that was just observed.
    pub fn new(id: PointerId) -> (r: Pointer)
        ensures
            r == Pointer::fresh(id),
    {
        Pointer {
            id,
            press: PointerPress { primary: false, secondary: false, middle: false },
            location: PointerLocation { location: None },
            multiselect: PointerMultiselect { is_pressed: false },
            enabled: true,
        }
    }
}

/// Whether some record of `s` belongs to pointer `id`.
pub open spec fn has_pointer(s: Seq<Pointer>, id: PointerId) -> bool {
    exists|i: int| 0 <= i < s.len() && (#[trigger] s[i]).id == id
}

/// An index of a record of pointer `id`; the only one where ids are unique.
pub open spec fn pointer_index(s: Seq<Pointer>, id: PointerId) -> int {
    choose|i: int| 0 <= i < s.len() && (#[trigger] s[i]).id == id
}

/// No two records belong to the same pointer.
pub open spec fn unique_ids(s: Seq<Pointer>) -> bool {
    forall|i: int, j: int|
        0 <= i < s.len() && 0 <= j < s.len() && (#[trigger] s[i]).id == (#[trigger] s[j]).id ==> i
            == j
}

/// The record of pointer `id`, or a fresh one if the pointer is unknown.
pub open spec fn record_of(s: Seq<Pointer>, id: PointerId) -> Pointer {
    if has_pointer(s, id) {
        s[pointer_index(s, id)]
    } else {
        Pointer::fresh(id)
    }
}

/// The records after `record`, which carries its pointer's id, has been
/// stored: in place of the pointer's old record, or at the end if the
/// pointer was unknown.
pub open spec fn stored(s: Seq<Pointer>, record: Pointer) -> Seq<Pointer> {
    if has_pointer(s, record.id) {
        s.update(pointer_index(s, record.id), record)
    } else {
        s.push(record)
    }
}

/// The records after pointer `id` has been taken out.
pub open spec fn without(s: Seq<Pointer>, id: PointerId) -> Seq<Pointer> {
    if has_pointer(s, id) {
        s.remove(pointer_index(s, id))
    } else {
        s
    }
}

/// Storing a record keeps ids unique.
pub proof fn lemma_stored_unique(s: Seq<Pointer>, record: Pointer)
    requires
        unique_ids(s),
    ensures
        unique_ids(stored(s, record)),
        has_pointer(stored(s, record), record.id),
        record_of(stored(s, record), record.id) == record,
        forall|other: PointerId|
            other != record.id ==> has_pointer(stored(s, record), other) == has_pointer(s, other)
                && record_of(stored(s, record), other) == record_of(s, other),
{
    let t = stored(s, record);
    let k = if has_pointer(s, record.id) { pointer_index(s, record.id) } else { s.len() as int };
    assert(t[k] == record);
    assert(forall|i: int| 0 <= i < s.len() && i != k ==> t[i] == s[i]);
    assert(unique_ids(t)) by {
        assert forall|i: int, j: int|
            0 <= i < t.len() && 0 <= j < t.len() && (#[trigger] t[i]).id == (#[trigger] t[j]).id
            implies i == j by {
            if i != k && j != k {
                assert(s[i].id == s[j].id);
            } else if i != k {
                assert(s[i].id == record.id);
            } else if j != k {
                assert(s[j].id == record.id);
            }
        }
    }
    assert(pointer_index(t, record.id) == k);
    assert forall|other: PointerId| other != record.id implies has_pointer(t, other)
        == has_pointer(s, other) && record_of(t, other) == record_of(s, other) by {
        if has_pointer(s, other) {
            let i = pointer_index(s, other);
            assert(t[i].id == other);
            let j = pointer_index(t, other);
            assert(s[j].id == other);
        }
        if has_pointer(t, other) {
            let j = pointer_index(t, other);
            assert(s[j].id == other);
        }
    }
}

/// The set of active pointers, one record for each.
pub struct PointerRegistry {
    pub pointers: Vec<Pointer>,
}

impl View for PointerRegistry {
    type V = Seq<Pointer>;

    open spec fn view(&self) -> Seq<Pointer> {
        self.pointers@
    }
}

impl PointerRegistry {
    /// The registry holds at most one record for each pointer.
    pub open spec fn wf(&self) -> bool {
        unique_ids(self@)
    }

    /// Creates a registry without pointers.
    pub fn new() -> (r: PointerRegistry)
        ensures
            r@ == Seq::<Pointer>::empty(),
            r.wf(),
    {
        PointerRegistry { pointers: Vec::new() }
    }

    /// Returns whether the registry holds at most one record for each
    /// pointer, which every function that takes a registry asks for.
    pub fn is_sound(&self) -> (ok: bool)
        ensures
            ok == self.wf(),
    {
        let mut i: usize = 0;
        while i < self.pointers.len()
            invariant
                i <= self.pointers.len(),
                forall|a: int, b: int|
                    0 <= a < i && a < b < self@.len() ==> (#[trigger] self@[a]).id != (
                    #[trigger] self@[b]).id,
            decreases self.pointers.len() - i,
        {
            let mut j: usize = i + 1;
            while j < self.pointers.len()
                invariant
                    i < j <= self.pointers.len(),
                    forall|b: int| i < b < j ==> self@[i as int].id != (#[trigger] self@[b]).id,
                decreases self.pointers.len() - j,
            {
                if self.pointers[i].id == self.pointers[j].id {
                    proof {
                        assert(self@[i as int].id == self@[j as int].id);
                    }
                    return false;
                }
                j += 1;
            }
            i += 1;
        }
        proof {
            assert forall|a: int, b: int|
                0 <= a < self@.len() && 0 <= b < self@.len() && (#[trigger] self@[a]).id == (
                #[trigger] self@[b]).id implies a == b by {
                if a < b {
                    assert(self@[a].id != self@[b].id);
                }
                if b < a {
                    assert(self@[b].id != self@[a].id);
                }
            }
        }
        true
    }

    /// Returns the position of the record of pointer `id`.
    pub fn find(&self, id: PointerId) -> (r: Option<usize>)
        requires
            self.wf(),
        ensures
            r is Some == has_pointer(self@, id),
            r is Some ==> r->0 as int == pointer_index(self@, id),
    {
        let mut i: usize = 0;
        while i < self.pointers.len()
            invariant
                self.wf(),
                i <= self.pointers.len(),
                forall|j: int| 0 <= j < i ==> (#[trigger] self@[j]).id != id,
            decreases self.pointers.len() - i,
        {
            if self.pointers[i].id == id {
                proof {
                    assert(self@[i as int].id == id);
                    let k = pointer_index(self@, id);
                    assert(self@[k].id == self@[i as int].id);
                }
                return Some(i);
            }
            i += 1;
        }
        None
    }

    /// Returns a copy of the record of pointer `id`; a fresh record if the
    /// pointer is unknown.
    pub fn get(&self, id: PointerId) -> (r: Pointer)
        requires
            self.wf(),
        ensures
            r == record_of(self@, id),
    {
        match self.find(id) {
            Some(i) => self.pointers[i],
            None => Pointer::new(id),
        }
    }

    /// Stores `record` for its pointer: inserts it if the pointer is unseen,
    /// else replaces the pointer's record in place.
    pub fn upsert(&mut self, record: Pointer)
        requires
            old(self).wf(),
        ensures
            final(self)@ == stored(old(self)@, record),
            final(self).wf(),
    {
        proof {
            lemma_stored_unique(self@, record);
        }
        match self.find(record.id) {
            Some(i) => {
                self.pointers.set(i, record);
            },
            None => {
                self.pointers.push(record);
            },
        }
    }

    /// Takes the record of pointer `id` out, if there is one.
    pub fn remove(&mut self, id: PointerId)
        requires
            old(self).wf(),
        ensures
            final(self)@ == without(old(self)@, id),
            final(self).wf(),
            !has_pointer(final(self)@, id),
    {
        match self.find(id) {
            Some(i) => {
                let ghost before = self@;
                self.pointers.remove(i);
                proof {
                    let after = self@;
                    assert forall|a: int, b: int|
                        0 <= a < after.len() && 0 <= b < after.len() && (#[trigger] after[a]).id == (
                        #[trigger] after[b]).id implies a == b by {
                        let a0 = if a < i { a } else { a + 1 };
                        let b0 = if b < i { b } else { b + 1 };
                        assert(before[a0].id == before[b0].id);
                    }
                    assert forall|a: int| 0 <= a < after.len() implies (#[trigger] after[a]).id
                        != id by {
                        let a0 = if a < i { a } else { a + 1 };
                        assert(before[a0].id == after[a].id);
                        assert(before[i as int].id == id);
                    }
                }
            },
            None => {},
        }
    }
}

} // verus!
