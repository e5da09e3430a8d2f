use sequencer::audio::controller::{Controller, Event, EventData, EventLog};
use sequencer::audio::player::Player;
use sequencer::pitch::Pitch;
use sequencer::sequence::{Note, Sequence};

fn note(tick: i32, num: i32, den: i32, length: i32) -> Note {
    Note { tick, pitch: Pitch::new(num, den), length }
}

fn on(sample: usize, sequence: usize, num: i32, den: i32) -> Event {
    Event { sample, sequence, data: EventData::NoteOn(0, Pitch::new(num, den)) }
}

fn off(sample: usize, sequence: usize, num: i32, den: i32) -> Event {
    Event { sample, sequence, data: EventData::NoteOff(0, Pitch::new(num, den)) }
}

fn clear(sequence: usize) -> Event {
    Event { sample: 0, sequence, data: EventData::ClearEvents }
}

fn stamps(events: &[Event]) -> Vec<(usize, EventData)> {
    events.iter().map(|e| (e.sample, e.data)).collect()
}

#[test]
fn one_note_plays_on_and_off() {
    let mut seq = Sequence::new();
    seq.add_note(note(0, 0, 1, 4));
    let mut player = Player::new(200, EventLog::new(), 4800);
    player.play(&seq, 0);
    player.process(&seq, 1000);
    let events = player.controller_mut().take();
    assert_eq!(events, vec![on(0, 0, 0, 1), off(800, 1, 0, 1)]);
}

#[test]
fn one_note_with_a_short_lookahead() {
    let mut seq = Sequence::new();
    seq.add_note(note(1, 0, 1, 4));
    let mut player = Player::new(200, EventLog::new(), 100);
    player.play(&seq, 0);
    assert!(player.controller().events().is_empty());
    player.process(&seq, 1000);
    let events = player.controller_mut().take();
    assert_eq!(events, vec![on(200, 0, 0, 1), off(1000, 1, 0, 1)]);
}

#[test]
fn notes_of_one_tick_keep_their_order() {
    let mut seq = Sequence::new();
    seq.add_note(note(2, 1, 12, 1));
    seq.add_note(note(2, 5, 12, 1));
    let mut player = Player::new(100, EventLog::new(), 1000);
    player.play(&seq, 0);
    let events = player.controller_mut().take();
    assert_eq!(
        events,
        vec![on(200, 0, 1, 12), off(300, 1, 1, 12), on(200, 2, 5, 12), off(300, 3, 5, 12)]
    );
    assert_eq!(events[0].sample, events[2].sample);
    assert!(events[0].sequence < events[2].sequence);
}

#[test]
fn zero_length_note_gives_on_and_off_at_one_sample() {
    let mut seq = Sequence::new();
    seq.add_note(note(3, 0, 1, 0));
    let mut player = Player::new(10, EventLog::new(), 100);
    player.play(&seq, 7);
    let events = player.controller_mut().take();
    assert_eq!(events, vec![on(37, 0, 0, 1), off(37, 1, 0, 1)]);
}

#[test]
fn play_while_playing_does_nothing() {
    let mut seq = Sequence::new();
    seq.add_note(note(0, 0, 1, 1));
    let mut player = Player::new(10, EventLog::new(), 100);
    player.play(&seq, 0);
    assert_eq!(player.controller_mut().take().len(), 2);
    player.play(&seq, 500);
    assert!(player.controller().events().is_empty());
    assert!(player.is_playing());
}

#[test]
fn process_while_stopped_does_nothing() {
    let mut seq = Sequence::new();
    seq.add_note(note(0, 0, 1, 1));
    let mut player = Player::new(10, EventLog::new(), 100);
    player.process(&seq, 1000);
    assert!(player.controller().events().is_empty());
    assert_eq!(player.get_position(), 0);
}

#[test]
fn pause_sends_clear_events() {
    let seq = Sequence::new();
    let mut player = Player::new(10, EventLog::new(), 100);
    player.play(&seq, 0);
    player.pause();
    assert!(!player.is_playing());
    assert_eq!(player.controller_mut().take(), vec![clear(0)]);
}

#[test]
fn pause_twice_sends_two_clear_events() {
    let seq = Sequence::new();
    let mut player = Player::new(10, EventLog::new(), 100);
    player.play(&seq, 0);
    player.pause();
    player.pause();
    assert_eq!(player.controller_mut().take(), vec![clear(0), clear(1)]);
}

#[test]
fn loop_wraps_like_an_unrolled_sequence() {
    // a loop of 16 ticks with notes at ticks 0, 8 and 15
    let mut looped = Sequence::new();
    looped.add_note(note(0, 0, 1, 2));
    looped.add_note(note(8, 1, 12, 2));
    looped.add_note(note(15, 2, 12, 1));
    // the same written out twice
    let mut unrolled = Sequence::new();
    for round in 0..2 {
        unrolled.add_note(note(16 * round, 0, 1, 2));
        unrolled.add_note(note(8 + 16 * round, 1, 12, 2));
        unrolled.add_note(note(15 + 16 * round, 2, 12, 1));
    }
    let spt = 10;
    let mut a = Player::new(spt, EventLog::new(), 0);
    a.set_loop(Some((0, 16)));
    a.play(&looped, 1000);
    let mut b = Player::new(spt, EventLog::new(), 0);
    b.play(&unrolled, 1000);
    // 16 ticks are 160 samples: the chunks cross the loop end once
    for chunk in [70, 90, 50, 60, 45] {
        a.process(&looped, chunk);
        b.process(&unrolled, chunk);
    }
    let with_loop = a.controller_mut().take();
    let written_out = b.controller_mut().take();
    assert_eq!(stamps(&with_loop), stamps(&written_out));
    assert_eq!(with_loop.len(), 12);
    assert_eq!(with_loop[6], on(1160, 6, 0, 1));
}

#[test]
fn chunk_that_ends_at_the_loop_end_loses_nothing() {
    let mut seq = Sequence::new();
    seq.add_note(note(0, 0, 1, 1));
    seq.add_note(note(15, 1, 12, 1));
    let mut whole = Player::new(10, EventLog::new(), 0);
    whole.set_loop(Some((0, 16)));
    whole.play(&seq, 0);
    whole.process(&seq, 200);
    let mut parts = Player::new(10, EventLog::new(), 0);
    parts.set_loop(Some((0, 16)));
    parts.play(&seq, 0);
    parts.process(&seq, 160);
    parts.process(&seq, 40);
    let whole = whole.controller_mut().take();
    let parts = parts.controller_mut().take();
    assert_eq!(whole, parts);
    assert_eq!(
        whole,
        vec![
            on(0, 0, 0, 1),
            off(10, 1, 0, 1),
            on(150, 2, 1, 12),
            off(160, 3, 1, 12),
            on(160, 4, 0, 1),
            off(170, 5, 0, 1),
        ]
    );
}

#[test]
fn position_wraps_with_the_loop() {
    let seq = Sequence::new();
    let mut player = Player::new(10, EventLog::new(), 0);
    player.set_loop(Some((4, 16)));
    player.play(&seq, 0);
    player.process(&seq, 150);
    assert_eq!(player.get_position(), 15);
    player.process(&seq, 25);
    // 175 samples less the 120 of the loop
    assert_eq!(player.get_position(), 5);
}

#[test]
fn seek_while_stopped_moves_the_cursor_only() {
    let mut seq = Sequence::new();
    seq.add_note(note(8, 0, 1, 1));
    let mut player = Player::new(10, EventLog::new(), 50);
    player.seek(&seq, 0, 8);
    assert_eq!(player.get_position(), 8);
    assert!(player.controller().events().is_empty());
    player.play(&seq, 300);
    assert_eq!(player.controller_mut().take(), vec![on(300, 0, 0, 1), off(310, 1, 0, 1)]);
}

#[test]
fn seek_while_playing_pauses_and_plays_on() {
    let mut seq = Sequence::new();
    seq.add_note(note(8, 0, 1, 1));
    let mut player = Player::new(10, EventLog::new(), 50);
    player.play(&seq, 0);
    assert!(player.controller_mut().take().is_empty());
    player.seek(&seq, 500, 8);
    assert!(player.is_playing());
    assert_eq!(
        player.controller_mut().take(),
        vec![clear(0), on(500, 1, 0, 1), off(510, 2, 0, 1)]
    );
}

#[test]
fn preview_sounds_one_pitch_at_a_time() {
    let mut player = Player::new(10, EventLog::new(), 50);
    player.play_preview(Pitch::new(1, 12));
    player.play_preview(Pitch::new(2, 12));
    player.stop_preview();
    player.stop_preview();
    assert_eq!(
        player.controller_mut().take(),
        vec![
            Event { sample: 0, sequence: 0, data: EventData::NoteOn(1, Pitch::new(1, 12)) },
            Event { sample: 0, sequence: 1, data: EventData::NoteOff(1, Pitch::new(1, 12)) },
            Event { sample: 0, sequence: 2, data: EventData::NoteOn(1, Pitch::new(1, 6)) },
            Event { sample: 0, sequence: 3, data: EventData::NoteOff(1, Pitch::new(1, 6)) },
        ]
    );
}

#[test]
fn event_log_keeps_what_it_is_sent() {
    let mut log = EventLog::new();
    log.send_event(clear(3));
    log.send_event(on(5, 4, 0, 1));
    assert_eq!(log.events(), &vec![clear(3), on(5, 4, 0, 1)]);
    assert_eq!(log.take(), vec![clear(3), on(5, 4, 0, 1)]);
    assert!(log.events().is_empty());
}
