use sequencer::audio::SynthCommand;
use sequencer::widgets::tick_grid::SimpleGrid;
use sequencer::widgets::timeline::{Action, TimelineInput, TimelineState};

#[test]
fn cursor_tick_snaps_and_stays_above_zero() {
    let grid = SimpleGrid::new(32);
    let mut state = TimelineState::new();
    assert_eq!(state.cursor_tick(50, &grid), 64);
    assert_eq!(state.cursor_tick(-50, &grid), 0);
    state.modifiers.alt = true;
    assert_eq!(state.cursor_tick(50, &grid), 50);
    assert_eq!(state.cursor_tick(-1, &grid), 0);
}

#[test]
fn press_seeks_and_moves_keep_seeking() {
    let mut state = TimelineState::new();
    assert!(matches!(state.on_mouse(TimelineInput::Moved, true, 5), (None, false)));
    assert!(matches!(state.on_mouse(TimelineInput::LeftPressed, false, 5), (None, false)));
    assert_eq!(state.action, Action::Idle);
    assert!(matches!(
        state.on_mouse(TimelineInput::LeftPressed, true, 32),
        (Some(SynthCommand::Seek(32)), true)
    ));
    assert_eq!(state.action, Action::Seeking);
    assert!(matches!(
        state.on_mouse(TimelineInput::Moved, false, 64),
        (Some(SynthCommand::Seek(64)), true)
    ));
    assert!(matches!(state.on_mouse(TimelineInput::LeftReleased, false, 64), (None, true)));
    assert_eq!(state.action, Action::Idle);
}

#[test]
fn control_press_spans_the_loop() {
    let mut state = TimelineState::new();
    state.modifiers.control = true;
    assert!(matches!(
        state.on_mouse(TimelineInput::LeftPressed, true, 64),
        (Some(SynthCommand::SetLoop(None)), true)
    ));
    assert_eq!(state.action, Action::Selecting(64));
    assert!(matches!(
        state.on_mouse(TimelineInput::Moved, true, 128),
        (Some(SynthCommand::SetLoop(Some((64, 128)))), true)
    ));
    assert!(matches!(
        state.on_mouse(TimelineInput::Moved, true, 0),
        (Some(SynthCommand::SetLoop(Some((0, 64)))), true)
    ));
}
