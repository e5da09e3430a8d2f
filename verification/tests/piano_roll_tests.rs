use sequencer::audio::SynthCommand;
use sequencer::pitch::Pitch;
use sequencer::sequence::{Note, Sequence, SequenceChange};
use sequencer::widgets::piano_roll::state::{
    Action, Cursor, HoverState, Modifiers, MouseInput, PianoRollSelfMessage, PianoRollState,
};
use sequencer::widgets::piano_roll::PianoRollMessage;
use sequencer::widgets::tick_grid::SimpleGrid;

fn note(tick: i32, num: i32, den: i32, length: i32) -> Note {
    Note { tick, pitch: Pitch::new(num, den), length }
}

fn at(tick: i32, num: i32, den: i32) -> Cursor {
    Cursor::new(tick, Pitch::new(num, den))
}

fn shown(messages: &[PianoRollMessage]) -> Vec<String> {
    messages.iter().map(|m| format!("{:?}", m)).collect()
}

fn take_up(action: Action) -> PianoRollMessage {
    PianoRollMessage::SelfMessage(PianoRollSelfMessage::Action(action))
}

#[test]
fn new_state_is_at_rest() {
    let state = PianoRollState::new();
    assert_eq!(state.action, Action::Idle);
    assert_eq!(state.hover, HoverState::Empty);
    assert_eq!(state.modifiers, Modifiers::default());
    assert!(state.selection.is_empty());
    assert_eq!(state.cursor, at(0, 0, 1));
}

#[test]
fn on_event_starts_dragging_the_last_note() {
    let mut seq = Sequence::new();
    let mut state = PianoRollState::new();
    state.on_event(PianoRollSelfMessage::DragLastCreatedNote(40), &seq);
    assert_eq!(state.action, Action::Idle);
    let id = seq.add_note(note(32, 0, 1, 32));
    state.on_event(PianoRollSelfMessage::DragLastCreatedNote(40), &seq);
    assert_eq!(state.action, Action::Dragging(id, 8));
    state.on_event(PianoRollSelfMessage::ResizeLastCreatedNote(70), &seq);
    assert_eq!(state.action, Action::Resizing(id, 38));
    state.on_event(PianoRollSelfMessage::Action(Action::Deleting), &seq);
    assert_eq!(state.action, Action::Deleting);
}

#[test]
fn click_on_empty_space_makes_a_note() {
    let seq = Sequence::new();
    let grid = SimpleGrid::new(32);
    let mut state = PianoRollState::new();
    state.cursor = at(50, 1, 12);
    state.selection = vec![];
    let mut messages = Vec::new();
    state.on_mouse(MouseInput::LeftPressed, &mut messages, &seq, &grid);
    assert_eq!(
        shown(&messages),
        shown(&[
            PianoRollMessage::SynthCommand(SynthCommand::StartPreview(Pitch::new(1, 12))),
            PianoRollMessage::SequenceChange(SequenceChange::Add(note(64, 1, 12, 32))),
            PianoRollMessage::SelfMessage(PianoRollSelfMessage::DragLastCreatedNote(50)),
        ])
    );
    state.modifiers.shift = true;
    let mut messages = Vec::new();
    state.on_mouse(MouseInput::LeftPressed, &mut messages, &seq, &grid);
    assert_eq!(
        shown(&messages[1..]),
        shown(&[
            PianoRollMessage::SequenceChange(SequenceChange::Add(note(64, 1, 12, 32))),
            PianoRollMessage::SelfMessage(PianoRollSelfMessage::ResizeLastCreatedNote(50)),
        ])
    );
    state.modifiers.alt = true;
    let mut messages = Vec::new();
    state.on_mouse(MouseInput::LeftPressed, &mut messages, &seq, &grid);
    assert_eq!(
        shown(&messages[1..2]),
        shown(&[PianoRollMessage::SequenceChange(SequenceChange::Add(note(50, 1, 12, 0)))])
    );
}

#[test]
fn click_on_a_note_drags_or_resizes_it() {
    let mut seq = Sequence::new();
    let a = seq.add_note(note(32, 0, 1, 32));
    let b = seq.add_note(note(96, 1, 12, 32));
    let grid = SimpleGrid::new(32);
    let mut state = PianoRollState::new();
    state.cursor = at(40, 0, 1);
    state.hover = HoverState::CanDrag(a);
    state.selection = vec![b];
    let mut messages = Vec::new();
    state.on_mouse(MouseInput::LeftPressed, &mut messages, &seq, &grid);
    assert_eq!(
        shown(&messages),
        shown(&[
            take_up(Action::Dragging(a, 8)),
            PianoRollMessage::SynthCommand(SynthCommand::StartPreview(Pitch::new(0, 1))),
        ])
    );
    // the note was not selected: the selection is gone
    assert!(state.selection.is_empty());

    state.selection = vec![a, b];
    state.modifiers.shift = true;
    let mut messages = Vec::new();
    state.on_mouse(MouseInput::LeftPressed, &mut messages, &seq, &grid);
    assert_eq!(
        shown(&messages[2..]),
        shown(&[
            PianoRollMessage::SequenceChange(SequenceChange::Add(note(32, 0, 1, 32))),
            PianoRollMessage::SequenceChange(SequenceChange::Add(note(96, 1, 12, 32))),
        ])
    );
    assert_eq!(state.selection, vec![a, b]);

    state.hover = HoverState::CanResize(b);
    state.cursor = at(130, 1, 12);
    let mut messages = Vec::new();
    state.on_mouse(MouseInput::LeftPressed, &mut messages, &seq, &grid);
    assert_eq!(shown(&messages), shown(&[take_up(Action::Resizing(b, 2))]));
}

#[test]
fn control_click_spans_a_selection() {
    let seq = Sequence::new();
    let grid = SimpleGrid::new(32);
    let mut state = PianoRollState::new();
    state.cursor = at(7, 1, 3);
    state.modifiers.control = true;
    let mut messages = Vec::new();
    state.on_mouse(MouseInput::LeftPressed, &mut messages, &seq, &grid);
    assert_eq!(shown(&messages), shown(&[take_up(Action::Selecting(7, Pitch::new(1, 3)))]));
    state.hover = HoverState::OutOfBounds;
    let mut messages = Vec::new();
    state.on_mouse(MouseInput::LeftPressed, &mut messages, &seq, &grid);
    assert!(messages.is_empty());
}

#[test]
fn right_click_deletes_and_release_ends_the_action() {
    let mut seq = Sequence::new();
    let a = seq.add_note(note(32, 0, 1, 32));
    let grid = SimpleGrid::new(32);
    let mut state = PianoRollState::new();
    state.hover = HoverState::CanDrag(a);
    let mut messages = Vec::new();
    state.on_mouse(MouseInput::RightPressed, &mut messages, &seq, &grid);
    assert_eq!(
        shown(&messages),
        shown(&[
            PianoRollMessage::SequenceChange(SequenceChange::Remove(a)),
            take_up(Action::Deleting),
        ])
    );
    let mut messages = Vec::new();
    state.hover = HoverState::OutOfBounds;
    state.delete_hovered(&mut messages);
    assert!(messages.is_empty());
    state.on_mouse(MouseInput::Released, &mut messages, &seq, &grid);
    assert_eq!(
        shown(&messages),
        shown(&[take_up(Action::Idle), PianoRollMessage::SynthCommand(SynthCommand::StopPreview)])
    );
}

#[test]
fn dragging_moves_the_selection_with_the_held_note() {
    let mut seq = Sequence::new();
    let a = seq.add_note(note(32, 0, 1, 32));
    let b = seq.add_note(note(100, 1, 12, 32));
    let grid = SimpleGrid::new(32);
    let mut state = PianoRollState::new();
    state.action = Action::Dragging(a, 8);
    state.selection = vec![a, b];
    let mut messages = Vec::new();
    // the held note goes from tick 32 to tick 64 and up a semitone
    state.update_cursor(at(75, 1, 12), &mut messages, &seq, &grid);
    assert_eq!(
        shown(&messages),
        shown(&[
            PianoRollMessage::SequenceChange(SequenceChange::Update(a, note(64, 1, 12, 32))),
            PianoRollMessage::SynthCommand(SynthCommand::StartPreview(Pitch::new(1, 12))),
            PianoRollMessage::SequenceChange(SequenceChange::Update(b, note(132, 1, 6, 32))),
            PianoRollMessage::SynthCommand(SynthCommand::StartPreview(Pitch::new(1, 6))),
        ])
    );
    assert_eq!(state.cursor, at(75, 1, 12));
    // the same cursor again does nothing
    let mut again = Vec::new();
    state.update_cursor(at(75, 1, 12), &mut again, &seq, &grid);
    assert!(again.is_empty());
}

#[test]
fn dragging_stops_at_tick_zero_and_at_the_range_of_pitches() {
    let mut seq = Sequence::new();
    let a = seq.add_note(note(64, 0, 1, 32));
    let b = seq.add_note(note(32, 3, 1, 32));
    let grid = SimpleGrid::new(32);
    let mut state = PianoRollState::new();
    state.action = Action::Dragging(a, 0);
    state.selection = vec![a, b];
    state.modifiers.alt = true;
    let mut messages = Vec::new();
    // far left and far up: the lower note stops at tick zero, the higher one at four octaves
    state.update_cursor(at(-500, 7, 1), &mut messages, &seq, &grid);
    assert_eq!(
        shown(&messages),
        shown(&[
            PianoRollMessage::SequenceChange(SequenceChange::Update(a, note(32, 1, 1, 32))),
            PianoRollMessage::SynthCommand(SynthCommand::StartPreview(Pitch::new(1, 1))),
            PianoRollMessage::SequenceChange(SequenceChange::Update(b, note(0, 4, 1, 32))),
            PianoRollMessage::SynthCommand(SynthCommand::StartPreview(Pitch::new(4, 1))),
        ])
    );
}

#[test]
fn resizing_keeps_notes_one_step_long() {
    let mut seq = Sequence::new();
    let a = seq.add_note(note(0, 0, 1, 64));
    let b = seq.add_note(note(0, 1, 12, 96));
    let grid = SimpleGrid::new(32);
    let mut state = PianoRollState::new();
    state.action = Action::Resizing(a, 0);
    state.selection = vec![a, b];
    let mut messages = Vec::new();
    state.update_cursor(at(128, 0, 1), &mut messages, &seq, &grid);
    assert_eq!(
        shown(&messages),
        shown(&[
            PianoRollMessage::SequenceChange(SequenceChange::Update(a, note(0, 0, 1, 128))),
            PianoRollMessage::SequenceChange(SequenceChange::Update(b, note(0, 1, 12, 160))),
        ])
    );
    let mut messages = Vec::new();
    state.update_cursor(at(-300, 0, 1), &mut messages, &seq, &grid);
    assert_eq!(
        shown(&messages),
        shown(&[
            PianoRollMessage::SequenceChange(SequenceChange::Update(a, note(0, 0, 1, 32))),
            PianoRollMessage::SequenceChange(SequenceChange::Update(b, note(0, 1, 12, 64))),
        ])
    );
}

#[test]
fn selecting_picks_the_notes_in_the_span() {
    let mut seq = Sequence::new();
    let a = seq.add_note(note(0, 0, 1, 10));
    let _b = seq.add_note(note(20, 5, 1, 10));
    let c = seq.add_note(note(30, 1, 12, 10));
    let _d = seq.add_note(note(50, 0, 1, 10));
    let grid = SimpleGrid::new(32);
    let mut state = PianoRollState::new();
    state.action = Action::Selecting(40, Pitch::new(1, 1));
    let mut messages = Vec::new();
    state.update_cursor(at(5, -1, 1), &mut messages, &seq, &grid);
    assert!(messages.is_empty());
    assert_eq!(state.selection, vec![a, c]);
}

#[test]
fn deleting_deletes_what_the_mouse_passes_over() {
    let mut seq = Sequence::new();
    let a = seq.add_note(note(0, 0, 1, 10));
    let grid = SimpleGrid::new(32);
    let mut state = PianoRollState::new();
    state.action = Action::Deleting;
    state.hover = HoverState::CanDrag(a);
    let mut messages = Vec::new();
    state.update_cursor(at(5, 0, 1), &mut messages, &seq, &grid);
    assert_eq!(
        shown(&messages),
        shown(&[
            PianoRollMessage::SequenceChange(SequenceChange::Remove(a)),
            take_up(Action::Deleting),
        ])
    );
}

#[test]
fn hover_prefers_the_body_of_another_note() {
    let mut seq = Sequence::new();
    let a = seq.add_note(note(0, 0, 1, 10));
    let b = seq.add_note(note(10, 0, 1, 10));
    assert_eq!(HoverState::over(false, Some(a), Some(b)), HoverState::OutOfBounds);
    assert_eq!(HoverState::over(true, None, None), HoverState::Empty);
    assert_eq!(HoverState::over(true, None, Some(b)), HoverState::CanDrag(b));
    assert_eq!(HoverState::over(true, Some(a), None), HoverState::CanResize(a));
    assert_eq!(HoverState::over(true, Some(a), Some(a)), HoverState::CanResize(a));
    assert_eq!(HoverState::over(true, Some(a), Some(b)), HoverState::CanDrag(b));
}
