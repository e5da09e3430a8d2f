use crossbeam::queue::SegQueue;
use sequencer::audio::controller::{Controller, Event, EventData};
use sequencer::audio::player::Player;
use sequencer::audio::redoxsynth::{RedoxSynthController, RedoxSynthSource, SynthCall};
use sequencer::pitch::Pitch;
use sequencer::sequence::{Note, Sequence};
use std::sync::Arc;

fn renderer() -> RedoxSynthSource {
    RedoxSynthSource::new(Arc::new(SegQueue::new()))
}

fn render(source: &mut RedoxSynthSource, sample: usize, buffer_len: usize) -> Vec<SynthCall> {
    let mut calls = vec![SynthCall::NoteOff(9, 9)];
    source.render(sample, buffer_len, &mut calls);
    calls
}

fn output_audio(source: &mut RedoxSynthSource, sample: usize, buffer_len: usize) -> Vec<SynthCall> {
    let mut calls = Vec::new();
    source.output_audio(sample, buffer_len, &mut calls);
    calls
}

fn on(sample: usize, sequence: usize, channel: u32, num: i32, den: i32) -> Event {
    Event { sample, sequence, data: EventData::NoteOn(channel, Pitch::new(num, den)) }
}

fn off(sample: usize, sequence: usize, channel: u32, num: i32, den: i32) -> Event {
    Event { sample, sequence, data: EventData::NoteOff(channel, Pitch::new(num, den)) }
}

fn clear(sequence: usize) -> Event {
    Event { sample: 0, sequence, data: EventData::ClearEvents }
}

#[test]
fn empty_renderer_fills_the_whole_buffer() {
    let mut source = renderer();
    assert_eq!(render(&mut source, 0, 512), vec![SynthCall::Render(0, 512)]);
    assert_eq!(render(&mut source, 256, 7), vec![SynthCall::Render(0, 6)]);
}

#[test]
fn events_take_effect_at_their_own_frame() {
    let mut source = renderer();
    source.receive(on(100, 0, 0, 0, 1));
    source.receive(off(300, 1, 0, 0, 1));
    // frames 64..320
    let calls = render(&mut source, 64, 512);
    assert_eq!(
        calls,
        vec![
            SynthCall::Render(0, 72),
            SynthCall::NoteOn(0, 69, 127),
            SynthCall::PitchBend(0, 8192),
            SynthCall::Render(72, 472),
            SynthCall::NoteOff(0, 69),
            SynthCall::Render(472, 512),
        ]
    );
    assert_eq!(render(&mut source, 320, 512), vec![SynthCall::Render(0, 512)]);
}

#[test]
fn events_after_the_buffer_wait() {
    let mut source = renderer();
    source.receive(on(256, 0, 0, 0, 1));
    assert_eq!(render(&mut source, 0, 512), vec![SynthCall::Render(0, 512)]);
    assert_eq!(
        render(&mut source, 256, 512),
        vec![SynthCall::NoteOn(0, 69, 127), SynthCall::PitchBend(0, 8192), SynthCall::Render(0, 512)]
    );
}

#[test]
fn late_events_take_effect_at_once() {
    let mut source = renderer();
    source.receive(on(0, 0, 1, 1, 12));
    let calls = render(&mut source, 1000, 64);
    assert_eq!(
        calls,
        vec![SynthCall::NoteOn(1, 70, 127), SynthCall::PitchBend(1, 8192), SynthCall::Render(0, 64)]
    );
}

#[test]
fn arrival_order_does_not_matter() {
    let a = on(10, 0, 0, 0, 1);
    let b = off(10, 1, 0, 0, 1);
    let c = on(10, 2, 0, 1, 12);
    let d = off(20, 3, 0, 1, 12);
    let mut in_order = renderer();
    for e in [a, b, c, d] {
        in_order.receive(e);
    }
    let mut shuffled = renderer();
    for e in [d, b, a, c] {
        shuffled.receive(e);
    }
    let expected = vec![
        SynthCall::Render(0, 20),
        SynthCall::NoteOn(0, 69, 127),
        SynthCall::PitchBend(0, 8192),
        SynthCall::NoteOff(0, 69),
        SynthCall::NoteOn(0, 70, 127),
        SynthCall::PitchBend(0, 8192),
        SynthCall::Render(20, 40),
        SynthCall::NoteOff(0, 70),
        SynthCall::Render(40, 200),
    ];
    assert_eq!(render(&mut in_order, 0, 200), expected);
    assert_eq!(render(&mut shuffled, 0, 200), expected);
}

#[test]
fn clear_events_drops_what_waits_and_silences_what_sounds() {
    let mut source = renderer();
    source.receive(on(0, 0, 0, 0, 1));
    source.receive(on(0, 1, 0, 1, 12));
    render(&mut source, 0, 64);
    source.receive(off(5000, 2, 0, 0, 1));
    source.receive(clear(3));
    let calls = render(&mut source, 32, 64);
    assert_eq!(
        calls,
        vec![SynthCall::NoteOff(0, 69), SynthCall::NoteOff(0, 70), SynthCall::Render(0, 64)]
    );
    // the note-off that waited is gone
    assert_eq!(render(&mut source, 5000, 64), vec![SynthCall::Render(0, 64)]);
}

#[test]
fn clear_events_twice_is_clear_events_once() {
    let mut once = renderer();
    let mut twice = renderer();
    for source in [&mut once, &mut twice] {
        source.receive(on(0, 0, 0, 0, 1));
        render(source, 0, 64);
    }
    once.receive(clear(1));
    twice.receive(clear(1));
    twice.receive(clear(2));
    assert_eq!(render(&mut once, 32, 64), render(&mut twice, 32, 64));
    assert_eq!(render(&mut once, 64, 64), vec![SynthCall::Render(0, 64)]);
    assert_eq!(render(&mut twice, 64, 64), vec![SynthCall::Render(0, 64)]);
}

#[test]
fn clear_events_with_nothing_sounding_is_harmless() {
    let mut source = renderer();
    source.receive(clear(0));
    assert_eq!(render(&mut source, 0, 64), vec![SynthCall::Render(0, 64)]);
}

#[test]
fn a_key_sounds_once_however_often_it_is_struck() {
    let mut source = renderer();
    source.receive(on(0, 0, 0, 0, 1));
    source.receive(on(0, 1, 0, 0, 1));
    source.receive(off(0, 2, 0, 0, 1));
    source.receive(clear(3));
    let calls = render(&mut source, 0, 8);
    // the clear wiped the three events before they took effect
    assert_eq!(calls, vec![SynthCall::Render(0, 8)]);
    source.receive(on(0, 4, 0, 0, 1));
    source.receive(on(0, 5, 0, 0, 1));
    render(&mut source, 8, 8);
    source.receive(clear(6));
    assert_eq!(render(&mut source, 16, 8), vec![SynthCall::NoteOff(0, 69), SynthCall::Render(0, 8)]);
}

#[test]
fn insert_event_keeps_clear_events_waiting_events() {
    let mut source = renderer();
    source.insert_event(on(40, 0, 0, 0, 1));
    source.insert_event(clear(1));
    // put in directly, a clear wipes nothing; it silences when it takes effect
    assert_eq!(
        render(&mut source, 0, 200),
        vec![
            SynthCall::Render(0, 80),
            SynthCall::NoteOn(0, 69, 127),
            SynthCall::PitchBend(0, 8192),
            SynthCall::Render(80, 200),
        ]
    );
    source.clear_events();
    assert_eq!(render(&mut source, 100, 4), vec![SynthCall::Render(0, 4)]);
}

#[test]
fn events_travel_through_the_queue() {
    let queue = Arc::new(SegQueue::new());
    let mut controller = RedoxSynthController::new(queue.clone());
    let mut source = RedoxSynthSource::new(queue.clone());
    assert_eq!(output_audio(&mut source, 0, 16), vec![SynthCall::Render(0, 16)]);
    // pushed out of order: the renderer sorts them
    controller.send_event(off(12, 1, 0, 0, 1));
    controller.send_event(on(10, 0, 0, 0, 1));
    assert_eq!(queue.len(), 2);
    assert_eq!(
        output_audio(&mut source, 8, 16),
        vec![
            SynthCall::Render(0, 4),
            SynthCall::NoteOn(0, 69, 127),
            SynthCall::PitchBend(0, 8192),
            SynthCall::Render(4, 8),
            SynthCall::NoteOff(0, 69),
            SynthCall::Render(8, 16),
        ]
    );
    assert!(queue.is_empty());
}

#[test]
fn drain_queue_takes_what_waits() {
    let queue = Arc::new(SegQueue::new());
    let mut source = RedoxSynthSource::new(queue.clone());
    queue.push(on(100, 0, 0, 0, 1));
    queue.push(clear(1));
    queue.push(on(3, 2, 1, 1, 12));
    source.drain_queue();
    assert!(queue.is_empty());
    // the clear wiped the first event; it silences nothing, and the last event follows it
    assert_eq!(
        render(&mut source, 0, 16),
        vec![
            SynthCall::Render(0, 6),
            SynthCall::NoteOn(1, 70, 127),
            SynthCall::PitchBend(1, 8192),
            SynthCall::Render(6, 16),
        ]
    );
}

#[test]
fn player_drives_the_renderer_through_the_queue() {
    let queue = Arc::new(SegQueue::new());
    let mut seq = Sequence::new();
    seq.add_note(Note { tick: 0, pitch: Pitch::new(0, 1), length: 4 });
    let mut player = Player::new(200, RedoxSynthController::new(queue.clone()), 4800);
    let mut source = RedoxSynthSource::new(queue);
    player.play(&seq, 0);
    player.process(&seq, 1000);
    assert_eq!(
        output_audio(&mut source, 0, 2000),
        vec![
            SynthCall::NoteOn(0, 69, 127),
            SynthCall::PitchBend(0, 8192),
            SynthCall::Render(0, 1600),
            SynthCall::NoteOff(0, 69),
            SynthCall::Render(1600, 2000),
        ]
    );
    player.pause();
    player.pause();
    assert_eq!(output_audio(&mut source, 1000, 8), vec![SynthCall::Render(0, 8)]);
}
