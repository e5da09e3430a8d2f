//! What the piano roll remembers between events: the action under way, what
//! the mouse hovers over, the keys held, the selection and the cursor.

use crate::audio::SynthCommand;
use crate::pitch::{lemma_pitch_unique, pitch_of, Pitch};
use crate::sequence::{lemma_listing_unique, listing, Note, NoteId, Sequence, SequenceChange};
use crate::widgets::piano_roll::PianoRollMessage;
use crate::widgets::tick_grid::{lemma_quantized_bounds, quantized, SimpleGrid};
use vstd::prelude::*;

verus! {

/// The modifier keys that are held.
#[derive(Clone, Copy, Debug, PartialEq, Eq, Structural)]
pub struct Modifiers {
    pub shift: bool,
    pub control: bool,
    pub alt: bool,
    pub logo: bool,
}

impl Default for Modifiers {
    fn default() -> (none: Modifiers)
        ensures
            none == (Modifiers { shift: false, control: false, alt: false, logo: false }),
    {
        Modifiers { shift: false, control: false, alt: false, logo: false }
    }
}

/// What the mouse hovers over.
#[derive(Clone, Copy, Debug, PartialEq, Eq, Structural)]
pub enum HoverState {
    /// Empty space of the piano roll.
    Empty,
    /// Somewhere outside the piano roll.
    OutOfBounds,
    /// The body of a note.
    CanDrag(NoteId),
    /// The end of a note.
    CanResize(NoteId),
}

impl HoverState {
    /// What the mouse hovers over, given whether it is inside the piano
    /// roll, the note whose end it touches and the note whose body it
    /// touches. The end of a note counts only where the mouse touches no
    /// other note's body.
    pub fn over(inside: bool, end_of: Option<NoteId>, body_of: Option<NoteId>) -> (hover: HoverState)
        ensures
            hover == (if !inside {
                HoverState::OutOfBounds
            } else {
                match (end_of, body_of) {
                    (None, None) => HoverState::Empty,
                    (None, Some(body)) => HoverState::CanDrag(body),
                    (Some(end), None) => HoverState::CanResize(end),
                    (Some(end), Some(body)) => if end == body {
                        HoverState::CanResize(end)
                    } else {
                        HoverState::CanDrag(body)
                    },
                }
            }),
    {
        if inside {
            match end_of {
                None => match body_of {
                    None => HoverState::Empty,
                    Some(id) => HoverState::CanDrag(id),
                },
                Some(id) => match body_of {
                    None => HoverState::CanResize(id),
                    Some(hover_id) => {
                        if id == hover_id {
                            HoverState::CanResize(id)
                        } else {
                            HoverState::CanDrag(hover_id)
                        }
                    },
                },
            }
        } else {
            HoverState::OutOfBounds
        }
    }
}

/// What the mouse is doing.
#[derive(Clone, Copy, Debug, PartialEq, Eq, Structural)]
pub enum Action {
    /// Nothing.
    Idle,
    /// Deleting what it passes over.
    Deleting,
    /// Dragging a note, held so many ticks behind its start.
    Dragging(NoteId, i32),
    /// Pulling at the end of a note, held so many ticks behind the end.
    Resizing(NoteId, i32),
    /// Spanning a selection from a tick and a pitch.
    Selecting(i32, Pitch),
}

/// A change that the piano roll asks of its own state.
#[derive(Clone, Copy, Debug, PartialEq, Eq, Structural)]
pub enum PianoRollSelfMessage {
    /// Take up an action.
    Action(Action),
    /// Drag the note that was added last, with the mouse at this tick.
    DragLastCreatedNote(i32),
    /// Pull at the end of the note that was added last, with the mouse at
    /// this tick.
    ResizeLastCreatedNote(i32),
}

/// Where the mouse points on the piano roll.
#[derive(Clone, Copy, Debug, PartialEq, Eq, Structural)]
pub struct Cursor {
    pub tick: i32,
    pub pitch: Pitch,
}

impl Cursor {
    /// The cursor at a tick and a pitch.
    pub fn new(tick: i32, pitch: Pitch) -> (cursor: Cursor)
        ensures
            cursor == (Cursor { tick, pitch }),
    {
        Cursor { tick, pitch }
    }
}

/// A button of the mouse going down or up.
#[derive(Clone, Copy, Debug, PartialEq, Eq, Structural)]
pub enum MouseInput {
    LeftPressed,
    RightPressed,
    Released,
}

/// The state of the piano roll.
pub struct PianoRollState {
    pub action: Action,
    pub hover: HoverState,
    pub modifiers: Modifiers,
    pub selection: Vec<NoteId>,
    pub cursor: Cursor,
}

/// Whether a number fits a tick.
pub open spec fn fits_i32(value: int) -> bool {
    i32::MIN <= value <= i32::MAX
}

/// The action that a message to the piano roll's own state leaves, given
/// the action before, the note that was added last and its identity.
pub open spec fn action_after(
    before: Action,
    event: PianoRollSelfMessage,
    last_added: Option<(NoteId, &Note)>,
) -> Action {
    match event {
        PianoRollSelfMessage::Action(action) => action,
        PianoRollSelfMessage::DragLastCreatedNote(cursor_tick) => match last_added {
            Some((id, note)) => Action::Dragging(id, (cursor_tick - note.tick) as i32),
            None => before,
        },
        PianoRollSelfMessage::ResizeLastCreatedNote(cursor_tick) => match last_added {
            Some((id, note)) => Action::Resizing(id, (cursor_tick - note.tick) as i32),
            None => before,
        },
    }
}

/// The distance from the note that was added last to the mouse fits a tick.
pub open spec fn action_fits(event: PianoRollSelfMessage, last_added: Option<(NoteId, &Note)>) -> bool {
    match (event, last_added) {
        (PianoRollSelfMessage::DragLastCreatedNote(cursor_tick), Some((_, note))) => fits_i32(
            cursor_tick - note.tick,
        ),
        (PianoRollSelfMessage::ResizeLastCreatedNote(cursor_tick), Some((_, note))) => fits_i32(
            cursor_tick - note.tick,
        ),
        _ => true,
    }
}

/// The note that a sequence reports as added last, with its identity.
pub open spec fn last_added_of(notes: &Sequence) -> Option<(NoteId, &Note)> {
    match notes.spec_last_added() {
        Some(id) => if notes@.contains_key(id) {
            Some((id, &notes@[id]))
        } else {
            None
        },
        None => None,
    }
}

/// The message that asks the piano roll to take up an action.
pub open spec fn take_up(action: Action) -> PianoRollMessage {
    PianoRollMessage::SelfMessage(PianoRollSelfMessage::Action(action))
}

/// What deleting does to what the mouse hovers over: over the body of a
/// note the note is removed; over a note or over empty space deleting
/// goes on.
pub open spec fn delete_messages(hover: HoverState) -> Seq<PianoRollMessage> {
    match hover {
        HoverState::Empty => seq![take_up(Action::Deleting)],
        HoverState::CanDrag(id) => seq![
            PianoRollMessage::SequenceChange(SequenceChange::Remove(id)),
            take_up(Action::Deleting),
        ],
        HoverState::CanResize(_) => seq![take_up(Action::Deleting)],
        HoverState::OutOfBounds => Seq::empty(),
    }
}

/// What letting go of a button does: the action ends and so does the
/// audition.
pub open spec fn release_messages() -> Seq<PianoRollMessage> {
    seq![take_up(Action::Idle), PianoRollMessage::SynthCommand(SynthCommand::StopPreview)]
}

impl PianoRollState {
    /// A piano roll at rest.
    pub fn new() -> (state: PianoRollState)
        ensures
            state.action == Action::Idle,
            state.hover == HoverState::Empty,
            state.modifiers == (Modifiers { shift: false, control: false, alt: false, logo: false }),
            state.selection@ == Seq::<NoteId>::empty(),
            state.cursor.tick == 0,
            state.cursor.pitch.is_ratio(0, 1),
    {
        PianoRollState {
            action: Action::Idle,
            hover: HoverState::Empty,
            modifiers: Modifiers::default(),
            selection: Vec::new(),
            cursor: Cursor { tick: 0, pitch: Pitch::new(0, 1) },
        }
    }

    /// Carries out a message to the piano roll's own state.
    pub fn on_event(&mut self, event: PianoRollSelfMessage, notes: &Sequence)
        requires
            action_fits(event, last_added_of(notes)),
        ensures
            final(self).action == action_after(old(self).action, event, last_added_of(notes)),
            final(self).hover == old(self).hover,
            final(self).modifiers == old(self).modifiers,
            final(self).selection == old(self).selection,
            final(self).cursor == old(self).cursor,
    {
        match event {
            PianoRollSelfMessage::Action(action) => {
                self.action = action;
            },
            PianoRollSelfMessage::DragLastCreatedNote(cursor_tick) => {
                if let Some((id, note)) = notes.last_added() {
                    self.action = Action::Dragging(id, cursor_tick - note.tick);
                }
            },
            PianoRollSelfMessage::ResizeLastCreatedNote(cursor_tick) => {
                if let Some((id, note)) = notes.last_added() {
                    self.action = Action::Resizing(id, cursor_tick - note.tick);
                }
            },
        }
    }

    /// Deletes what the mouse hovers over.
    pub fn delete_hovered(&self, messages: &mut Vec<PianoRollMessage>)
        ensures
            final(messages)@ == old(messages)@ + delete_messages(self.hover),
    {
        let ghost before = messages@;
        match self.hover {
            HoverState::Empty => {
                messages.push(
                    PianoRollMessage::SelfMessage(PianoRollSelfMessage::Action(Action::Deleting)),
                );
            },
            HoverState::CanDrag(id) => {
                messages.push(PianoRollMessage::SequenceChange(SequenceChange::Remove(id)));
                messages.push(
                    PianoRollMessage::SelfMessage(PianoRollSelfMessage::Action(Action::Deleting)),
                );
            },
            HoverState::CanResize(_) => {
                messages.push(
                    PianoRollMessage::SelfMessage(PianoRollSelfMessage::Action(Action::Deleting)),
                );
            },
            HoverState::OutOfBounds => {},
        }
        assert(messages@ =~= before + delete_messages(self.hover));
    }
}

/// The notes of the selection that live, with their identities, in the
/// order of the selection.
pub open spec fn living(selection: Seq<NoteId>, notes: Map<NoteId, Note>) -> Seq<(NoteId, Note)>
    decreases selection.len(),
{
    if selection.len() == 0 {
        Seq::empty()
    } else {
        let head = living(selection.drop_last(), notes);
        if notes.contains_key(selection.last()) {
            head.push((selection.last(), notes[selection.last()]))
        } else {
            head
        }
    }
}

/// The notes that an edit applies to: the selected notes that live or,
/// where there is none, the note that the mouse holds.
pub open spec fn edited_notes(
    selection: Seq<NoteId>,
    notes: Map<NoteId, Note>,
    held: (NoteId, Note),
) -> Seq<(NoteId, Note)> {
    if living(selection, notes).len() == 0 {
        seq![held]
    } else {
        living(selection, notes)
    }
}

/// The smaller of two numbers.
pub open spec fn least(a: int, b: int) -> int {
    if b < a {
        b
    } else {
        a
    }
}

/// The larger of two numbers.
pub open spec fn most(a: int, b: int) -> int {
    if a < b {
        b
    } else {
        a
    }
}

/// The first start tick among the notes of a list that is not empty.
pub open spec fn least_tick(list: Seq<(NoteId, Note)>) -> int
    decreases list.len(),
{
    if list.len() <= 1 {
        list[0].1.tick as int
    } else {
        least(least_tick(list.drop_last()), list.last().1.tick as int)
    }
}

/// The shortest length among the notes of a list that is not empty.
pub open spec fn least_length(list: Seq<(NoteId, Note)>) -> int
    decreases list.len(),
{
    if list.len() <= 1 {
        list[0].1.length as int
    } else {
        least(least_length(list.drop_last()), list.last().1.length as int)
    }
}

/// The lower of two pitches.
pub open spec fn lower(a: Pitch, b: Pitch) -> Pitch {
    if b.spec_lt(a) {
        b
    } else {
        a
    }
}

/// The higher of two pitches.
pub open spec fn higher(a: Pitch, b: Pitch) -> Pitch {
    if a.spec_lt(b) {
        b
    } else {
        a
    }
}

/// The lowest pitch among the notes of a list that is not empty.
pub open spec fn lowest_pitch(list: Seq<(NoteId, Note)>) -> Pitch
    decreases list.len(),
{
    if list.len() <= 1 {
        list[0].1.pitch
    } else {
        lower(lowest_pitch(list.drop_last()), list.last().1.pitch)
    }
}

/// The highest pitch among the notes of a list that is not empty.
pub open spec fn highest_pitch(list: Seq<(NoteId, Note)>) -> Pitch
    decreases list.len(),
{
    if list.len() <= 1 {
        list[0].1.pitch
    } else {
        higher(highest_pitch(list.drop_last()), list.last().1.pitch)
    }
}

/// The notes that an edit applies to.
fn collect_edited(selection: &Vec<NoteId>, notes: &Sequence, held: (NoteId, Note)) -> (list: Vec<
    (NoteId, Note),
>)
    ensures
        list@ == edited_notes(selection@, notes@, held),
        list.len() > 0,
{
    let mut list: Vec<(NoteId, Note)> = Vec::new();
    let mut i: usize = 0;
    while i < selection.len()
        invariant
            0 <= i <= selection.len(),
            list@ == living(selection@.subrange(0, i as int), notes@),
        decreases selection.len() - i,
    {
        let id = selection[i];
        proof {
            assert(selection@.subrange(0, i + 1).drop_last() =~= selection@.subrange(0, i as int));
            assert(selection@.subrange(0, i + 1).last() == id);
        }
        match notes.get(id) {
            Some(note) => {
                list.push((id, *note));
            },
            None => {},
        }
        i += 1;
    }
    proof {
        assert(selection@.subrange(0, i as int) =~= selection@);
    }
    if list.len() == 0 {
        list.push(held);
        proof {
            assert(list@ =~= seq![held]);
        }
    }
    list
}

/// The first start tick, the shortest length, the lowest and the highest
/// pitch among the notes of a list.
fn extremes(list: &Vec<(NoteId, Note)>) -> (found: (i32, i32, Pitch, Pitch))
    requires
        list.len() > 0,
    ensures
        found.0 == least_tick(list@),
        found.1 == least_length(list@),
        found.2 == lowest_pitch(list@),
        found.3 == highest_pitch(list@),
{
    let first = list[0].1;
    let mut tick = first.tick;
    let mut length = first.length;
    let mut low = first.pitch;
    let mut high = first.pitch;
    proof {
        assert(list@.subrange(0, 1)[0] == list@[0]);
    }
    let mut i: usize = 1;
    while i < list.len()
        invariant
            1 <= i <= list.len(),
            tick == least_tick(list@.subrange(0, i as int)),
            length == least_length(list@.subrange(0, i as int)),
            low == lowest_pitch(list@.subrange(0, i as int)),
            high == highest_pitch(list@.subrange(0, i as int)),
        decreases list.len() - i,
    {
        let note = list[i].1;
        proof {
            assert(list@.subrange(0, i + 1).drop_last() =~= list@.subrange(0, i as int));
            assert(list@.subrange(0, i + 1).last() == list@[i as int]);
        }
        if note.tick < tick {
            tick = note.tick;
        }
        if note.length < length {
            length = note.length;
        }
        if note.pitch.lt(&low) {
            low = note.pitch;
        }
        if high.lt(&note.pitch) {
            high = note.pitch;
        }
        i += 1;
    }
    proof {
        assert(list@.subrange(0, i as int) =~= list@);
    }
    (tick, length, low, high)
}

/// A pitch held between two bounds.
pub open spec fn held_between(pitch: Pitch, low: Pitch, high: Pitch) -> Pitch {
    if pitch.spec_lt(low) {
        low
    } else if high.spec_lt(pitch) {
        high
    } else {
        pitch
    }
}

/// The lowest and the highest pitch that a note may be dragged to, in
/// octaves from concert A.
pub const DRAG_RANGE: i32 = 4;

/// The length of a note that a click makes, in ticks.
pub const NEW_NOTE_LENGTH: i32 = 32;

/// The tick that a dragged note is dragged to: the mouse's tick less the
/// distance at which the note is held, not below zero, and, unless alt is
/// held, snapped to the grid in such a way that a note which stood off the
/// grid stays as far off it.
pub open spec fn drag_tick(
    cursor_tick: int,
    drag_offset: int,
    note_tick: int,
    alt: bool,
    spacing: int,
) -> int {
    let off_grid = note_tick - quantized(note_tick, spacing);
    let tick = most(0, cursor_tick - drag_offset);
    if alt {
        tick
    } else {
        quantized(tick - off_grid, spacing) + off_grid
    }
}

/// By how many ticks the edited notes move in a drag: as far as the held
/// note goes, but no note moves below tick zero.
pub open spec fn drag_ticks(
    list: Seq<(NoteId, Note)>,
    cursor: Cursor,
    drag_offset: int,
    note: Note,
    alt: bool,
    spacing: int,
) -> int {
    most(
        -least_tick(list),
        drag_tick(cursor.tick as int, drag_offset, note.tick as int, alt, spacing) - note.tick,
    )
}

/// The lowest offset in pitch that keeps every edited note in range.
pub open spec fn lowest_offset(list: Seq<(NoteId, Note)>) -> Pitch {
    pitch_of(-DRAG_RANGE as int, 1).difference(lowest_pitch(list))
}

/// The highest offset in pitch that keeps every edited note in range.
pub open spec fn highest_offset(list: Seq<(NoteId, Note)>) -> Pitch {
    pitch_of(DRAG_RANGE as int, 1).difference(highest_pitch(list))
}

/// By how much the edited notes move in pitch in a drag: as far as the
/// held note goes to the mouse, but no note leaves the range.
pub open spec fn drag_pitch(list: Seq<(NoteId, Note)>, cursor: Cursor, note: Note) -> Pitch {
    held_between(cursor.pitch.difference(note.pitch), lowest_offset(list), highest_offset(list))
}

/// A note moved by some ticks and by some pitch.
pub open spec fn moved(note: Note, ticks: int, pitch: Pitch) -> Note {
    Note { tick: (note.tick + ticks) as i32, pitch: note.pitch.sum(pitch), length: note.length }
}

/// What the move of one note asks for: the note is updated if the move
/// changes it, and its new pitch is auditioned if the move changes that.
pub open spec fn move_messages(entry: (NoteId, Note), ticks: int, pitch: Pitch) -> Seq<
    PianoRollMessage,
> {
    let new_note = moved(entry.1, ticks, pitch);
    let update = if entry.1 != new_note {
        seq![PianoRollMessage::SequenceChange(SequenceChange::Update(entry.0, new_note))]
    } else {
        Seq::empty()
    };
    let audition = if entry.1.pitch != new_note.pitch {
        seq![PianoRollMessage::SynthCommand(SynthCommand::StartPreview(new_note.pitch))]
    } else {
        Seq::empty()
    };
    update + audition
}

/// What the move of a list of notes asks for, note by note.
pub open spec fn drag_messages(list: Seq<(NoteId, Note)>, ticks: int, pitch: Pitch) -> Seq<
    PianoRollMessage,
>
    decreases list.len(),
{
    if list.len() == 0 {
        Seq::empty()
    } else {
        drag_messages(list.drop_last(), ticks, pitch) + move_messages(list.last(), ticks, pitch)
    }
}

/// Every number that a drag comes by fits a tick, every pitch that it
/// comes by is a pitch, and the range of offsets is not empty.
pub open spec fn drag_fits(
    list: Seq<(NoteId, Note)>,
    cursor: Cursor,
    drag_offset: int,
    note: Note,
    alt: bool,
    spacing: int,
) -> bool {
    let off_grid = note.tick - quantized(note.tick as int, spacing);
    let tick = most(0, cursor.tick - drag_offset);
    let ticks = drag_ticks(list, cursor, drag_offset, note, alt, spacing);
    let pitch = drag_pitch(list, cursor, note);
    &&& note.tick + spacing / 2 <= i32::MAX
    &&& fits_i32(cursor.tick - drag_offset)
    &&& !alt ==> fits_i32(tick - off_grid) && tick - off_grid + spacing / 2 <= i32::MAX && fits_i32(
        quantized(tick - off_grid, spacing) + off_grid,
    )
    &&& least_tick(list) > i32::MIN
    &&& fits_i32(drag_tick(cursor.tick as int, drag_offset, note.tick as int, alt, spacing) - note.tick)
    &&& cursor.pitch.difference_fits(note.pitch)
    &&& pitch_of(-DRAG_RANGE as int, 1).difference_fits(lowest_pitch(list))
    &&& pitch_of(DRAG_RANGE as int, 1).difference_fits(highest_pitch(list))
    &&& !highest_offset(list).spec_lt(lowest_offset(list))
    &&& forall|k: int|
        0 <= k < list.len() ==> fits_i32((#[trigger] list[k]).1.tick + ticks)
            && list[k].1.pitch.sum_fits(pitch)
}

/// By how many ticks the edited notes grow when the end of a note is
/// pulled: as far as the held note's end goes to the mouse, snapped to the
/// grid unless alt is held, but no note gets shorter than one step of the
/// grid, or than nothing with alt held.
pub open spec fn resize_ticks(
    list: Seq<(NoteId, Note)>,
    cursor: Cursor,
    drag_offset: int,
    note: Note,
    alt: bool,
    spacing: int,
) -> int {
    let end = note.tick + note.length;
    let off_grid = end - quantized(end, spacing);
    let to = cursor.tick - drag_offset;
    let tick = if alt {
        to
    } else {
        quantized(to - off_grid, spacing) + off_grid
    };
    let shortest = if alt {
        least_length(list)
    } else {
        least_length(list) - spacing
    };
    most(-shortest, tick - note.tick - note.length)
}

/// A note made longer by some ticks.
pub open spec fn resized(note: Note, ticks: int) -> Note {
    Note { length: (note.length + ticks) as i32, ..note }
}

/// What making a list of notes longer asks for: each note that changes is
/// updated.
pub open spec fn resize_messages(list: Seq<(NoteId, Note)>, ticks: int) -> Seq<PianoRollMessage>
    decreases list.len(),
{
    if list.len() == 0 {
        Seq::empty()
    } else {
        let (id, note) = list.last();
        let update = if note != resized(note, ticks) {
            seq![PianoRollMessage::SequenceChange(SequenceChange::Update(id, resized(note, ticks)))]
        } else {
            Seq::empty()
        };
        resize_messages(list.drop_last(), ticks) + update
    }
}

/// Every number that pulling at the end of a note comes by fits a tick.
pub open spec fn resize_fits(
    list: Seq<(NoteId, Note)>,
    cursor: Cursor,
    drag_offset: int,
    note: Note,
    alt: bool,
    spacing: int,
) -> bool {
    let end = note.tick + note.length;
    let off_grid = end - quantized(end, spacing);
    let to = cursor.tick - drag_offset;
    let tick = if alt {
        to
    } else {
        quantized(to - off_grid, spacing) + off_grid
    };
    let shortest = if alt {
        least_length(list)
    } else {
        least_length(list) - spacing
    };
    let ticks = resize_ticks(list, cursor, drag_offset, note, alt, spacing);
    &&& fits_i32(end)
    &&& end + spacing / 2 <= i32::MAX
    &&& fits_i32(to)
    &&& !alt ==> fits_i32(to - off_grid) && to - off_grid + spacing / 2 <= i32::MAX && fits_i32(tick)
    &&& fits_i32(tick - note.tick)
    &&& fits_i32(shortest)
    &&& shortest > i32::MIN
    &&& fits_i32(tick - note.tick - note.length)
    &&& forall|k: int| 0 <= k < list.len() ==> fits_i32((#[trigger] list[k]).1.length + ticks)
}

/// A note lies in the selection that is spanned from a tick and a pitch to
/// the mouse: it starts no later than the span ends and ends no earlier
/// than the span starts, and its pitch is inside the span.
pub open spec fn in_span(note: Note, start_tick: int, start_pitch: Pitch, cursor: Cursor) -> bool {
    &&& note.tick <= most(start_tick, cursor.tick as int)
    &&& note.tick + note.length >= least(start_tick, cursor.tick as int)
    &&& !higher(start_pitch, cursor.pitch).spec_lt(note.pitch)
    &&& !note.pitch.spec_lt(lower(start_pitch, cursor.pitch))
}

/// The identities of the notes of a list that lie in the span.
pub open spec fn spanned(
    list: Seq<(NoteId, Note)>,
    start_tick: int,
    start_pitch: Pitch,
    cursor: Cursor,
) -> Seq<NoteId>
    decreases list.len(),
{
    if list.len() == 0 {
        Seq::empty()
    } else {
        let head = spanned(list.drop_last(), start_tick, start_pitch, cursor);
        if in_span(list.last().1, start_tick, start_pitch, cursor) {
            head.push(list.last().0)
        } else {
            head
        }
    }
}

/// Every note of the list that starts no later than the span ends has an
/// end that fits a tick.
pub open spec fn span_fits(list: Seq<(NoteId, Note)>, start_tick: int, cursor: Cursor) -> bool {
    forall|k: int|
        0 <= k < list.len() && (#[trigger] list[k]).1.tick <= most(start_tick, cursor.tick as int)
            ==> fits_i32(list[k].1.tick + list[k].1.length)
}

/// Every note, in the order of the sequence.
pub open spec fn all_notes(notes: Map<NoteId, Note>) -> Seq<(NoteId, Note)> {
    listing(notes, i32::MIN as int, i32::MAX + 1)
}

impl PianoRollState {
    /// The notes that an edit of the held note applies to.
    pub open spec fn edited(self, notes: Map<NoteId, Note>, id: NoteId) -> Seq<(NoteId, Note)> {
        edited_notes(self.selection@, notes, (id, notes[id]))
    }

    /// What a move of the mouse to `cursor` asks for.
    pub open spec fn cursor_messages(self, cursor: Cursor, notes: Map<NoteId, Note>, spacing: int) -> Seq<
        PianoRollMessage,
    > {
        if self.cursor == cursor {
            Seq::empty()
        } else {
            match self.action {
                Action::Dragging(id, drag_offset) => if notes.contains_key(id) {
                    drag_messages(
                        self.edited(notes, id),
                        drag_ticks(
                            self.edited(notes, id),
                            cursor,
                            drag_offset as int,
                            notes[id],
                            self.modifiers.alt,
                            spacing,
                        ),
                        drag_pitch(self.edited(notes, id), cursor, notes[id]),
                    )
                } else {
                    Seq::empty()
                },
                Action::Resizing(id, drag_offset) => if notes.contains_key(id) {
                    resize_messages(
                        self.edited(notes, id),
                        resize_ticks(
                            self.edited(notes, id),
                            cursor,
                            drag_offset as int,
                            notes[id],
                            self.modifiers.alt,
                            spacing,
                        ),
                    )
                } else {
                    Seq::empty()
                },
                Action::Deleting => delete_messages(self.hover),
                Action::Selecting(_, _) => Seq::empty(),
                Action::Idle => Seq::empty(),
            }
        }
    }

    /// The selection after a move of the mouse to `cursor`: while a
    /// selection is spanned it is the notes in the span, else it stays.
    pub open spec fn cursor_selection(self, cursor: Cursor, notes: Map<NoteId, Note>) -> Seq<NoteId> {
        if self.cursor == cursor {
            self.selection@
        } else {
            match self.action {
                Action::Selecting(start_tick, start_pitch) => spanned(
                    all_notes(notes),
                    start_tick as int,
                    start_pitch,
                    cursor,
                ),
                _ => self.selection@,
            }
        }
    }

    /// Every number that the move of the mouse comes by fits.
    pub open spec fn cursor_fits(self, cursor: Cursor, notes: Map<NoteId, Note>, spacing: int) -> bool {
        self.cursor != cursor ==> match self.action {
            Action::Dragging(id, drag_offset) => notes.contains_key(id) ==> drag_fits(
                self.edited(notes, id),
                cursor,
                drag_offset as int,
                notes[id],
                self.modifiers.alt,
                spacing,
            ),
            Action::Resizing(id, drag_offset) => notes.contains_key(id) ==> resize_fits(
                self.edited(notes, id),
                cursor,
                drag_offset as int,
                notes[id],
                self.modifiers.alt,
                spacing,
            ),
            Action::Selecting(start_tick, _) => span_fits(all_notes(notes), start_tick as int, cursor),
            _ => true,
        }
    }
}

/// A pitch held between two bounds.
fn clamp(pitch: Pitch, low: Pitch, high: Pitch) -> (held: Pitch)
    ensures
        held == held_between(pitch, low, high),
{
    if pitch.lt(&low) {
        low
    } else if high.lt(&pitch) {
        high
    } else {
        pitch
    }
}

/// The pitch a whole number of octaves from concert A.
fn octaves(count: i32) -> (pitch: Pitch)
    requires
        count > i32::MIN,
    ensures
        pitch == pitch_of(count as int, 1),
{
    let pitch = Pitch::new(count, 1);
    proof {
        lemma_pitch_unique(pitch, pitch_of(count as int, 1), count as int, 1);
    }
    pitch
}

impl PianoRollState {
    /// Moves the edited notes with the held note as it is dragged to the
    /// mouse.
    fn drag(
        &self,
        cursor: Cursor,
        id: NoteId,
        drag_offset: i32,
        note: Note,
        messages: &mut Vec<PianoRollMessage>,
        notes: &Sequence,
        grid: &SimpleGrid,
    )
        requires
            notes@.contains_key(id),
            notes@[id] == note,
            drag_fits(
                self.edited(notes@, id),
                cursor,
                drag_offset as int,
                note,
                self.modifiers.alt,
                grid.spacing(),
            ),
        ensures
            final(messages)@ == old(messages)@ + drag_messages(
                self.edited(notes@, id),
                drag_ticks(
                    self.edited(notes@, id),
                    cursor,
                    drag_offset as int,
                    note,
                    self.modifiers.alt,
                    grid.spacing(),
                ),
                drag_pitch(self.edited(notes@, id), cursor, note),
            ),
    {
        let ghost before = messages@;
        let ghost spacing = grid.spacing();
        let _size = grid.grid_size(note.tick);
        proof {
            lemma_quantized_bounds(note.tick as int, spacing);
        }
        let quantize_offset = note.tick - grid.quantize_tick(note.tick);
        let reach = cursor.tick - drag_offset;
        let mut tick = if reach > 0 {
            reach
        } else {
            0
        };
        if !self.modifiers.alt {
            tick = grid.quantize_tick(tick - quantize_offset) + quantize_offset;
        }
        let list = collect_edited(&self.selection, notes, (id, note));
        let (min_tick, _min_length, min_note, max_note) = extremes(&list);
        let step = tick - note.tick;
        let tick_offset = if step < -min_tick {
            -min_tick
        } else {
            step
        };
        let wanted = cursor.pitch - note.pitch;
        let low = octaves(-DRAG_RANGE) - min_note;
        let high = octaves(DRAG_RANGE) - max_note;
        let note_offset = clamp(wanted, low, high);
        let mut i: usize = 0;
        while i < list.len()
            invariant
                0 <= i <= list.len(),
                forall|k: int|
                    0 <= k < list.len() ==> fits_i32((#[trigger] list@[k]).1.tick + tick_offset)
                        && list@[k].1.pitch.sum_fits(note_offset),
                messages@ == before + drag_messages(
                    list@.subrange(0, i as int),
                    tick_offset as int,
                    note_offset,
                ),
            decreases list.len() - i,
        {
            let (note_id, note) = list[i];
            let ghost sent = messages@;
            proof {
                assert(list@.subrange(0, i + 1).drop_last() =~= list@.subrange(0, i as int));
                assert(list@.subrange(0, i + 1).last() == list@[i as int]);
            }
            let new_note = Note {
                tick: note.tick + tick_offset,
                pitch: note.pitch + note_offset,
                length: note.length,
            };
            if note != new_note {
                messages.push(
                    PianoRollMessage::SequenceChange(SequenceChange::Update(note_id, new_note)),
                );
            }
            if note.pitch != new_note.pitch {
                messages.push(
                    PianoRollMessage::SynthCommand(SynthCommand::StartPreview(new_note.pitch)),
                );
            }
            proof {
                assert(messages@ =~= sent + move_messages(
                    (note_id, note),
                    tick_offset as int,
                    note_offset,
                ));
            }
            i += 1;
        }
        proof {
            assert(list@.subrange(0, i as int) =~= list@);
        }
    }

    /// Makes the edited notes longer or shorter with the held note as its
    /// end is pulled to the mouse.
    fn resize(
        &self,
        cursor: Cursor,
        id: NoteId,
        drag_offset: i32,
        note: Note,
        messages: &mut Vec<PianoRollMessage>,
        notes: &Sequence,
        grid: &SimpleGrid,
    )
        requires
            notes@.contains_key(id),
            notes@[id] == note,
            resize_fits(
                self.edited(notes@, id),
                cursor,
                drag_offset as int,
                note,
                self.modifiers.alt,
                grid.spacing(),
            ),
        ensures
            final(messages)@ == old(messages)@ + resize_messages(
                self.edited(notes@, id),
                resize_ticks(
                    self.edited(notes@, id),
                    cursor,
                    drag_offset as int,
                    note,
                    self.modifiers.alt,
                    grid.spacing(),
                ),
            ),
    {
        let ghost before = messages@;
        let ghost spacing = grid.spacing();
        let end = note.tick + note.length;
        let size = grid.grid_size(end);
        proof {
            lemma_quantized_bounds(end as int, spacing);
        }
        let quantize_offset = end - grid.quantize_tick(end);
        let mut tick = cursor.tick - drag_offset;
        if !self.modifiers.alt {
            tick = grid.quantize_tick(tick - quantize_offset) + quantize_offset;
        }
        let length = tick - note.tick;
        let list = collect_edited(&self.selection, notes, (id, note));
        let (_min_tick, shortest, _min_note, _max_note) = extremes(&list);
        let mut min_length = shortest;
        if !self.modifiers.alt {
            min_length = min_length - size;
        }
        let step = length - note.length;
        let length_offset = if step < -min_length {
            -min_length
        } else {
            step
        };
        let mut i: usize = 0;
        while i < list.len()
            invariant
                0 <= i <= list.len(),
                forall|k: int|
                    0 <= k < list.len() ==> fits_i32((#[trigger] list@[k]).1.length + length_offset),
                messages@ == before + resize_messages(
                    list@.subrange(0, i as int),
                    length_offset as int,
                ),
            decreases list.len() - i,
        {
            let (note_id, note) = list[i];
            proof {
                assert(list@.subrange(0, i + 1).drop_last() =~= list@.subrange(0, i as int));
                assert(list@.subrange(0, i + 1).last() == list@[i as int]);
            }
            let new_note = Note { length: note.length + length_offset, ..note };
            if note != new_note {
                messages.push(
                    PianoRollMessage::SequenceChange(SequenceChange::Update(note_id, new_note)),
                );
            }
            i += 1;
        }
        proof {
            assert(list@.subrange(0, i as int) =~= list@);
        }
    }

    /// Selects the notes in the span from a tick and a pitch to the mouse.
    fn select(&mut self, cursor: Cursor, start_tick: i32, start_pitch: Pitch, notes: &Sequence)
        requires
            notes.wf(),
            span_fits(all_notes(notes@), start_tick as int, cursor),
        ensures
            final(self).selection@ == spanned(
                all_notes(notes@),
                start_tick as int,
                start_pitch,
                cursor,
            ),
            final(self).action == old(self).action,
            final(self).hover == old(self).hover,
            final(self).modifiers == old(self).modifiers,
            final(self).cursor == old(self).cursor,
    {
        let from_tick = if cursor.tick < start_tick {
            cursor.tick
        } else {
            start_tick
        };
        let to_tick = if start_tick < cursor.tick {
            cursor.tick
        } else {
            start_tick
        };
        let from_pitch = if cursor.pitch.lt(&start_pitch) {
            cursor.pitch
        } else {
            start_pitch
        };
        let to_pitch = if start_pitch.lt(&cursor.pitch) {
            cursor.pitch
        } else {
            start_pitch
        };
        let list = notes.iter();
        proof {
            lemma_listing_unique(list@, list@, notes@, i32::MIN as int, i32::MAX + 1);
        }
        let mut chosen: Vec<NoteId> = Vec::new();
        let mut i: usize = 0;
        while i < list.len()
            invariant
                0 <= i <= list.len(),
                span_fits(list@, start_tick as int, cursor),
                from_tick == least(start_tick as int, cursor.tick as int),
                to_tick == most(start_tick as int, cursor.tick as int),
                from_pitch == lower(start_pitch, cursor.pitch),
                to_pitch == higher(start_pitch, cursor.pitch),
                chosen@ == spanned(list@.subrange(0, i as int), start_tick as int, start_pitch, cursor),
            decreases list.len() - i,
        {
            let (id, note) = list[i];
            proof {
                assert(list@.subrange(0, i + 1).drop_last() =~= list@.subrange(0, i as int));
                assert(list@.subrange(0, i + 1).last() == list@[i as int]);
            }
            if note.tick <= to_tick && note.end_tick() >= from_tick && note.pitch.le(&to_pitch)
                && from_pitch.le(&note.pitch) {
                chosen.push(id);
            }
            i += 1;
        }
        proof {
            assert(list@.subrange(0, i as int) =~= list@);
        }
        self.selection = chosen;
    }

    /// Takes the mouse to `cursor` and carries on with the action under
    /// way: a held note is dragged or pulled at, with the selected notes
    /// following it; deleting deletes what the mouse hovers over; a spanned
    /// selection is spanned anew.
    pub fn update_cursor(
        &mut self,
        cursor: Cursor,
        messages: &mut Vec<PianoRollMessage>,
        notes: &Sequence,
        grid: &SimpleGrid,
    )
        requires
            notes.wf(),
            old(self).cursor_fits(cursor, notes@, grid.spacing()),
        ensures
            final(self).cursor == cursor,
            final(self).action == old(self).action,
            final(self).hover == old(self).hover,
            final(self).modifiers == old(self).modifiers,
            final(self).selection@ == old(self).cursor_selection(cursor, notes@),
            final(messages)@ == old(messages)@ + old(self).cursor_messages(
                cursor,
                notes@,
                grid.spacing(),
            ),
    {
        let ghost before = messages@;
        if self.cursor != cursor {
            match self.action {
                Action::Dragging(note_id, drag_offset) => {
                    match notes.get(note_id) {
                        Some(note) => {
                            self.drag(cursor, note_id, drag_offset, *note, messages, notes, grid);
                        },
                        None => {},
                    }
                },
                Action::Resizing(note_id, drag_offset) => {
                    match notes.get(note_id) {
                        Some(note) => {
                            self.resize(cursor, note_id, drag_offset, *note, messages, notes, grid);
                        },
                        None => {},
                    }
                },
                Action::Deleting => {
                    self.delete_hovered(messages);
                },
                Action::Selecting(start_tick, start_pitch) => {
                    self.select(cursor, start_tick, start_pitch, notes);
                },
                Action::Idle => {},
            }
            self.cursor = cursor;
        }
        proof {
            assert(messages@ =~= before + old(self).cursor_messages(cursor, notes@, grid.spacing()));
        }
    }
}

/// The messages that copy the notes of a list.
pub open spec fn copies(list: Seq<(NoteId, Note)>) -> Seq<PianoRollMessage> {
    Seq::new(list.len(), |i: int| PianoRollMessage::SequenceChange(SequenceChange::Add(list[i].1)))
}

impl PianoRollState {
    /// The note that a click on empty space makes: at the mouse, snapped to
    /// the grid unless alt is held; one step of the grid long with shift
    /// held, or nothing long with alt held as well, and of the usual length
    /// without shift.
    pub open spec fn new_note(self, spacing: int) -> Note {
        Note {
            tick: (if self.modifiers.alt {
                self.cursor.tick as int
            } else {
                quantized(self.cursor.tick as int, spacing)
            }) as i32,
            pitch: self.cursor.pitch,
            length: (if self.modifiers.shift {
                if self.modifiers.alt {
                    0
                } else {
                    spacing
                }
            } else {
                NEW_NOTE_LENGTH as int
            }) as i32,
        }
    }

    /// What pressing the left button asks for. With control held a
    /// selection is spanned from the mouse. Over empty space a note is made,
    /// auditioned, and then dragged, or pulled at with shift held. On the
    /// body of a note the note is dragged and auditioned, and with shift
    /// held the notes that the drag applies to are copied first. On the end
    /// of a note the end is pulled at.
    pub open spec fn press_messages(self, notes: Map<NoteId, Note>, spacing: int) -> Seq<
        PianoRollMessage,
    > {
        if self.modifiers.control {
            match self.hover {
                HoverState::OutOfBounds => Seq::empty(),
                _ => seq![take_up(Action::Selecting(self.cursor.tick, self.cursor.pitch))],
            }
        } else {
            match self.hover {
                HoverState::OutOfBounds => Seq::empty(),
                HoverState::Empty => seq![
                    PianoRollMessage::SynthCommand(SynthCommand::StartPreview(self.cursor.pitch)),
                    PianoRollMessage::SequenceChange(SequenceChange::Add(self.new_note(spacing))),
                    PianoRollMessage::SelfMessage(
                        if self.modifiers.shift {
                            PianoRollSelfMessage::ResizeLastCreatedNote(self.cursor.tick)
                        } else {
                            PianoRollSelfMessage::DragLastCreatedNote(self.cursor.tick)
                        },
                    ),
                ],
                HoverState::CanDrag(id) => if notes.contains_key(id) {
                    seq![
                        take_up(Action::Dragging(id, (self.cursor.tick - notes[id].tick) as i32)),
                        PianoRollMessage::SynthCommand(SynthCommand::StartPreview(notes[id].pitch)),
                    ] + (if self.modifiers.shift {
                        if self.press_selection(notes).len() == 0 {
                            seq![PianoRollMessage::SequenceChange(SequenceChange::Add(notes[id]))]
                        } else {
                            copies(living(self.press_selection(notes), notes))
                        }
                    } else {
                        Seq::empty()
                    })
                } else {
                    Seq::empty()
                },
                HoverState::CanResize(id) => if notes.contains_key(id) {
                    seq![
                        take_up(
                            Action::Resizing(
                                id,
                                (self.cursor.tick - notes[id].tick - notes[id].length) as i32,
                            ),
                        ),
                    ]
                } else {
                    Seq::empty()
                },
            }
        }
    }

    /// The selection after the left button is pressed: a click on empty
    /// space or on a note outside the selection empties it.
    pub open spec fn press_selection(self, notes: Map<NoteId, Note>) -> Seq<NoteId> {
        if self.modifiers.control {
            self.selection@
        } else {
            match self.hover {
                HoverState::OutOfBounds => self.selection@,
                HoverState::Empty => Seq::empty(),
                HoverState::CanDrag(id) => if notes.contains_key(id) && !self.selection@.contains(
                    id,
                ) {
                    Seq::empty()
                } else {
                    self.selection@
                },
                HoverState::CanResize(id) => if notes.contains_key(id) && !self.selection@.contains(
                    id,
                ) {
                    Seq::empty()
                } else {
                    self.selection@
                },
            }
        }
    }

    /// Every number that pressing the left button comes by fits a tick.
    pub open spec fn press_fits(self, notes: Map<NoteId, Note>, spacing: int) -> bool {
        !self.modifiers.control ==> match self.hover {
            HoverState::OutOfBounds => true,
            HoverState::Empty => !self.modifiers.alt ==> self.cursor.tick + spacing / 2 <= i32::MAX,
            HoverState::CanDrag(id) => notes.contains_key(id) ==> fits_i32(
                self.cursor.tick - notes[id].tick,
            ),
            HoverState::CanResize(id) => notes.contains_key(id) ==> fits_i32(
                self.cursor.tick - notes[id].tick,
            ) && fits_i32(self.cursor.tick - notes[id].tick - notes[id].length),
        }
    }

    /// What a button of the mouse asks for.
    pub open spec fn mouse_messages(self, input: MouseInput, notes: Map<NoteId, Note>, spacing: int) -> Seq<
        PianoRollMessage,
    > {
        match input {
            MouseInput::LeftPressed => self.press_messages(notes, spacing),
            MouseInput::RightPressed => delete_messages(self.hover),
            MouseInput::Released => release_messages(),
        }
    }

    /// Whether the identity is selected.
    fn is_selected(&self, id: NoteId) -> (found: bool)
        ensures
            found == self.selection@.contains(id),
    {
        let mut i: usize = 0;
        while i < self.selection.len()
            invariant
                0 <= i <= self.selection.len(),
                forall|k: int| 0 <= k < i ==> self.selection@[k] != id,
            decreases self.selection.len() - i,
        {
            if self.selection[i] == id {
                return true;
            }
            i += 1;
        }
        false
    }

    /// Handles the left button going down.
    fn press(&mut self, messages: &mut Vec<PianoRollMessage>, notes: &Sequence, grid: &SimpleGrid)
        requires
            old(self).press_fits(notes@, grid.spacing()),
        ensures
            final(self).selection@ == old(self).press_selection(notes@),
            final(self).action == old(self).action,
            final(self).hover == old(self).hover,
            final(self).modifiers == old(self).modifiers,
            final(self).cursor == old(self).cursor,
            final(messages)@ == old(messages)@ + old(self).press_messages(notes@, grid.spacing()),
    {
        let ghost before = messages@;
        let ghost state = *self;
        let cursor_tick = self.cursor.tick;
        let cursor_note = self.cursor.pitch;
        if self.modifiers.control {
            match self.hover {
                HoverState::OutOfBounds => {},
                _ => {
                    messages.push(
                        PianoRollMessage::SelfMessage(
                            PianoRollSelfMessage::Action(Action::Selecting(cursor_tick, cursor_note)),
                        ),
                    );
                },
            }
        } else {
            match self.hover {
                HoverState::OutOfBounds => {},
                HoverState::Empty => {
                    let mut tick = cursor_tick;
                    if !self.modifiers.alt {
                        tick = grid.quantize_tick(tick);
                    }
                    if self.modifiers.shift {
                        let length = if self.modifiers.alt {
                            0
                        } else {
                            grid.grid_size(tick)
                        };
                        let note = Note { tick, pitch: cursor_note, length };
                        messages.push(
                            PianoRollMessage::SynthCommand(SynthCommand::StartPreview(note.pitch)),
                        );
                        messages.push(PianoRollMessage::SequenceChange(SequenceChange::Add(note)));
                        messages.push(
                            PianoRollMessage::SelfMessage(
                                PianoRollSelfMessage::ResizeLastCreatedNote(cursor_tick),
                            ),
                        );
                    } else {
                        let note = Note { tick, pitch: cursor_note, length: NEW_NOTE_LENGTH };
                        messages.push(
                            PianoRollMessage::SynthCommand(SynthCommand::StartPreview(note.pitch)),
                        );
                        messages.push(PianoRollMessage::SequenceChange(SequenceChange::Add(note)));
                        messages.push(
                            PianoRollMessage::SelfMessage(
                                PianoRollSelfMessage::DragLastCreatedNote(cursor_tick),
                            ),
                        );
                    }
                    self.selection.clear();
                },
                HoverState::CanDrag(id) => {
                    match notes.get(id) {
                        Some(note) => {
                            messages.push(
                                PianoRollMessage::SelfMessage(
                                    PianoRollSelfMessage::Action(
                                        Action::Dragging(id, cursor_tick - note.tick),
                                    ),
                                ),
                            );
                            messages.push(
                                PianoRollMessage::SynthCommand(
                                    SynthCommand::StartPreview(note.pitch),
                                ),
                            );
                            if !self.is_selected(id) {
                                self.selection.clear();
                            }
                            if self.modifiers.shift {
                                if self.selection.len() == 0 {
                                    messages.push(
                                        PianoRollMessage::SequenceChange(SequenceChange::Add(*note)),
                                    );
                                } else {
                                    self.copy_selected(messages, notes);
                                }
                            }
                        },
                        None => {},
                    }
                },
                HoverState::CanResize(id) => {
                    match notes.get(id) {
                        Some(note) => {
                            messages.push(
                                PianoRollMessage::SelfMessage(
                                    PianoRollSelfMessage::Action(
                                        Action::Resizing(id, cursor_tick - note.tick - note.length),
                                    ),
                                ),
                            );
                            if !self.is_selected(id) {
                                self.selection.clear();
                            }
                        },
                        None => {},
                    }
                },
            }
        }
        proof {
            assert(self.selection@ =~= state.press_selection(notes@));
            assert(messages@ =~= before + state.press_messages(notes@, grid.spacing()));
        }
    }

    /// Asks for a copy of each selected note that lives.
    fn copy_selected(&self, messages: &mut Vec<PianoRollMessage>, notes: &Sequence)
        ensures
            final(messages)@ == old(messages)@ + copies(living(self.selection@, notes@)),
    {
        let ghost before = messages@;
        let mut i: usize = 0;
        while i < self.selection.len()
            invariant
                0 <= i <= self.selection.len(),
                messages@ == before + copies(living(self.selection@.subrange(0, i as int), notes@)),
            decreases self.selection.len() - i,
        {
            let id = self.selection[i];
            let ghost sent = messages@;
            let ghost head = living(self.selection@.subrange(0, i as int), notes@);
            proof {
                assert(self.selection@.subrange(0, i + 1).drop_last() =~= self.selection@.subrange(
                    0,
                    i as int,
                ));
                assert(self.selection@.subrange(0, i + 1).last() == id);
            }
            match notes.get(id) {
                Some(note) => {
                    messages.push(PianoRollMessage::SequenceChange(SequenceChange::Add(*note)));
                    proof {
                        assert(copies(head.push((id, *note))) =~= copies(head).push(
                            PianoRollMessage::SequenceChange(SequenceChange::Add(*note)),
                        ));
                    }
                },
                None => {},
            }
            i += 1;
        }
        proof {
            assert(self.selection@.subrange(0, i as int) =~= self.selection@);
        }
    }

    /// Handles a button of the mouse going down or up.
    pub fn on_mouse(
        &mut self,
        input: MouseInput,
        messages: &mut Vec<PianoRollMessage>,
        notes: &Sequence,
        grid: &SimpleGrid,
    )
        requires
            input == MouseInput::LeftPressed ==> old(self).press_fits(notes@, grid.spacing()),
        ensures
            final(self).selection@ == (if input == MouseInput::LeftPressed {
                old(self).press_selection(notes@)
            } else {
                old(self).selection@
            }),
            final(self).action == old(self).action,
            final(self).hover == old(self).hover,
            final(self).modifiers == old(self).modifiers,
            final(self).cursor == old(self).cursor,
            final(messages)@ == old(messages)@ + old(self).mouse_messages(
                input,
                notes@,
                grid.spacing(),
            ),
    {
        let ghost before = messages@;
        match input {
            MouseInput::LeftPressed => {
                self.press(messages, notes, grid);
            },
            MouseInput::RightPressed => {
                self.delete_hovered(messages);
            },
            MouseInput::Released => {
                messages.push(
                    PianoRollMessage::SelfMessage(PianoRollSelfMessage::Action(Action::Idle)),
                );
                messages.push(PianoRollMessage::SynthCommand(SynthCommand::StopPreview));
                proof {
                    assert(messages@ =~= before + release_messages());
                }
            },
        }
    }
}

} // verus!
