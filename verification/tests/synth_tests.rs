use sequencer::audio::controller::{Event, EventData, EventLog};
use sequencer::audio::player::Player;
use sequencer::audio::{PlaybackState, Synth, SynthCommand};
use sequencer::pitch::Pitch;
use sequencer::sequence::{Note, Sequence};

fn sequence() -> Sequence {
    let mut seq = Sequence::new();
    seq.add_note(Note { tick: 0, pitch: Pitch::new(0, 1), length: 4 });
    seq.add_note(Note { tick: 8, pitch: Pitch::new(1, 12), length: 4 });
    seq
}

#[test]
fn playback_state_starts_stopped() {
    let state = PlaybackState::new();
    assert_eq!(state.playback_cursor, 0);
    assert_eq!(state.playback_start_cursor, 0);
    assert!(!state.playing);
    assert_eq!(state.looping, None);
    assert!(state == PlaybackState::new());
    assert!(state != PlaybackState { playing: true, ..state });
    assert!(state != PlaybackState { looping: Some((0, 1)), ..state });
}

#[test]
fn status_is_handed_out_when_it_changes() {
    let seq = sequence();
    let mut synth = Synth::new(Player::new(200, EventLog::new(), 4800));
    assert_eq!(synth.status(), None);
    synth.command(&seq, SynthCommand::Play);
    let playing = synth.status().unwrap();
    assert!(playing.playing);
    assert_eq!(playing.playback_cursor, 0);
    assert_eq!(synth.status(), None);
    synth.process(&seq, 1000);
    assert_eq!(synth.status().unwrap().playback_cursor, 5);
    synth.process(&seq, 10);
    assert_eq!(synth.status(), None);
}

#[test]
fn stop_returns_to_where_playback_started() {
    let seq = sequence();
    let mut synth = Synth::new(Player::new(200, EventLog::new(), 4800));
    synth.command(&seq, SynthCommand::Seek(8));
    let sought = synth.status().unwrap();
    assert_eq!((sought.playback_cursor, sought.playback_start_cursor), (8, 8));
    synth.command(&seq, SynthCommand::Play);
    synth.process(&seq, 2000);
    assert_eq!(synth.status().unwrap().playback_cursor, 18);
    synth.controller_mut().take();
    synth.command(&seq, SynthCommand::Stop);
    let stopped = synth.status().unwrap();
    assert!(!stopped.playing);
    assert_eq!(stopped.playback_cursor, 8);
    assert_eq!(
        synth.controller_mut().take(),
        vec![Event { sample: 0, sequence: 2, data: EventData::ClearEvents }]
    );
}

#[test]
fn play_is_anchored_at_the_samples_played() {
    let seq = sequence();
    let mut synth = Synth::new(Player::new(200, EventLog::new(), 4800));
    synth.process(&seq, 300);
    synth.command(&seq, SynthCommand::Play);
    let events = synth.controller_mut().take();
    assert_eq!(events.len(), 4);
    assert_eq!(events[0].sample, 300);
    assert_eq!(events[3].sample, 300 + 12 * 200);
}

#[test]
fn set_loop_and_preview_commands() {
    let seq = sequence();
    let mut synth = Synth::new(Player::new(200, EventLog::new(), 0));
    synth.command(&seq, SynthCommand::SetLoop(Some((0, 16))));
    assert_eq!(synth.status().unwrap().looping, Some((0, 16)));
    synth.command(&seq, SynthCommand::SetLoop(None));
    assert_eq!(synth.status().unwrap().looping, None);
    synth.command(&seq, SynthCommand::StartPreview(Pitch::new(1, 12)));
    synth.command(&seq, SynthCommand::StopPreview);
    synth.command(&seq, SynthCommand::Pause);
    assert_eq!(
        synth.controller_mut().take(),
        vec![
            Event { sample: 0, sequence: 0, data: EventData::NoteOn(1, Pitch::new(1, 12)) },
            Event { sample: 0, sequence: 1, data: EventData::NoteOff(1, Pitch::new(1, 12)) },
            Event { sample: 0, sequence: 2, data: EventData::ClearEvents },
        ]
    );
    assert!(!synth.player().is_playing());
}

#[test]
fn loop_between_orders_its_ends() {
    assert!(matches!(SynthCommand::loop_between(3, 9), SynthCommand::SetLoop(Some((3, 9)))));
    assert!(matches!(SynthCommand::loop_between(9, 3), SynthCommand::SetLoop(Some((3, 9)))));
    assert!(matches!(SynthCommand::loop_between(5, 5), SynthCommand::SetLoop(None)));
}
