//! The transport: it turns played time and the notes of a sequence into
//! timestamped note events.

use crate::audio::controller::{Controller, Event, EventData};
use crate::pitch::Pitch;
use crate::sequence::{
    lemma_listing_exists, lemma_listing_split, lemma_listing_unique, listing, lists_range, Note,
    NoteId, Sequence,
};
use vstd::prelude::*;

verus! {

/// The transport as plain numbers. Positions on the time line of the
/// sequence are counted in samples, `samples_per_tick` to the tick.
pub struct PlayerView {
    /// How many samples a tick lasts.
    pub samples_per_tick: int,
    /// How far ahead of the cursor `play` scans at once, in samples.
    pub buffer_size: int,
    /// The number that the next event gets to settle ties.
    pub sequence: int,
    /// The output sample at which playback was anchored.
    pub start_sample: int,
    /// The position on the time line that sounds at `start_sample`.
    pub start_cursor: int,
    /// The position up to which notes have been turned into events.
    pub cursor: int,
    /// The position that observers are shown.
    pub playing_frame: int,
    pub playing: bool,
    /// The loop region as positions, first its start, then its end.
    pub looping: Option<(int, int)>,
    /// The pitch that is being auditioned, if any.
    pub preview: Option<Pitch>,
}

/// The first tick that does not start before the position `sample`.
pub open spec fn tick_at_or_after(sample: int, samples_per_tick: int) -> int {
    (sample + samples_per_tick - 1) / samples_per_tick
}

/// A tick starts at or after a position exactly when it is not below
/// `tick_at_or_after` of that position.
pub proof fn lemma_tick_at_or_after(tick: int, sample: int, samples_per_tick: int)
    requires
        samples_per_tick > 0,
    ensures
        tick * samples_per_tick >= sample <==> tick >= tick_at_or_after(sample, samples_per_tick),
{
    let first = tick_at_or_after(sample, samples_per_tick);
    assert(first * samples_per_tick >= sample && (first - 1) * samples_per_tick < sample)
        by (nonlinear_arith)
        requires
            first == (sample + samples_per_tick - 1) / samples_per_tick,
            samples_per_tick > 0,
    ;
    if tick >= first {
        assert(tick * samples_per_tick >= first * samples_per_tick) by (nonlinear_arith)
            requires
                tick >= first,
                samples_per_tick > 0,
        ;
    } else {
        assert(tick * samples_per_tick <= (first - 1) * samples_per_tick) by (nonlinear_arith)
            requires
                tick <= first - 1,
                samples_per_tick > 0,
        ;
    }
}

impl PlayerView {
    /// The numbers make sense: a tick lasts at least one sample, nothing is
    /// negative, a loop does not end before it starts, and the cursor has
    /// not fallen behind the anchor.
    pub open spec fn wf(self) -> bool {
        &&& self.samples_per_tick > 0
        &&& self.buffer_size >= 0
        &&& self.sequence >= 0
        &&& self.start_sample >= 0
        &&& self.start_cursor >= 0
        &&& self.cursor >= 0
        &&& self.playing_frame >= 0
        &&& self.start_cursor <= self.start_sample + self.cursor
        &&& match self.looping {
            Some((start, end)) => 0 <= start <= end,
            None => true,
        }
    }

    /// The output sample that the cursor has reached.
    pub open spec fn clock(self) -> int {
        self.start_sample + self.cursor - self.start_cursor
    }

    /// The output sample at which the start of `tick` sounds.
    pub open spec fn event_time(self, tick: int) -> int {
        self.start_sample + tick * self.samples_per_tick - self.start_cursor
    }

    /// The notes that start at a position from the cursor up to, not
    /// including, `to`.
    pub open spec fn scanned(self, notes: Map<NoteId, Note>, to: int) -> Seq<(NoteId, Note)> {
        listing(
            notes,
            tick_at_or_after(self.cursor, self.samples_per_tick),
            tick_at_or_after(to, self.samples_per_tick),
        )
    }

    /// The `i`-th event for a list of notes: each note gives a note-on at
    /// its start and then a note-off at its end, both on channel 0, and the
    /// events are numbered on from `sequence`.
    pub open spec fn note_event(self, list: Seq<(NoteId, Note)>, i: int) -> Event {
        let note = list[i / 2].1;
        if i % 2 == 0 {
            Event {
                sample: self.event_time(note.tick as int) as usize,
                sequence: (self.sequence + i) as usize,
                data: EventData::NoteOn(0, note.pitch),
            }
        } else {
            Event {
                sample: self.event_time(note.tick + note.length) as usize,
                sequence: (self.sequence + i) as usize,
                data: EventData::NoteOff(0, note.pitch),
            }
        }
    }

    /// The events for a list of notes, two for each note.
    pub open spec fn note_events(self, list: Seq<(NoteId, Note)>) -> Seq<Event> {
        Seq::new((2 * list.len()) as nat, |i: int| self.note_event(list, i))
    }

    /// The events for the notes of `list` can be built: no note has a
    /// negative length, and every time stamp and every sequence number fits
    /// the machine word.
    pub open spec fn list_fits(self, list: Seq<(NoteId, Note)>) -> bool {
        &&& self.sequence + 2 * list.len() <= usize::MAX
        &&& forall|k: int|
            0 <= k < list.len() ==> (#[trigger] list[k]).1.length >= 0 && self.event_time(
                list[k].1.tick + list[k].1.length,
            ) <= usize::MAX
    }

    /// Turning the notes from the cursor up to `to` into events: the state
    /// afterwards, with the sequence numbers used up, and the events.
    pub open spec fn scan_range(self, notes: Map<NoteId, Note>, to: int) -> (PlayerView, Seq<Event>) {
        let list = self.scanned(notes, to);
        (PlayerView { sequence: self.sequence + 2 * list.len(), ..self }, self.note_events(list))
    }

    /// Where the loop starts, or zero without a loop.
    pub open spec fn loop_start(self) -> int {
        match self.looping {
            Some((start, _)) => start,
            None => 0,
        }
    }

    /// Where the loop ends, or zero without a loop.
    pub open spec fn loop_end(self) -> int {
        match self.looping {
            Some((_, end)) => end,
            None => 0,
        }
    }

    /// An advance of the cursor by `length` reaches the end of the loop from
    /// inside it.
    pub open spec fn wraps(self, length: int) -> bool {
        self.looping is Some && self.cursor < self.loop_end() && self.cursor + length
            >= self.loop_end()
    }

    /// The state at the end of the loop, turned back to its start: the
    /// cursor stands at the start of the loop and the anchor has moved on by
    /// the length of the loop, so that time stamps keep rising.
    pub open spec fn turned(self) -> PlayerView {
        PlayerView {
            start_sample: self.start_sample + (self.loop_end() - self.loop_start()),
            cursor: self.loop_start(),
            ..self
        }
    }

    /// Turning the next `length` samples of the time line into events. An
    /// advance that reaches the loop end is scanned in two pieces: up to the
    /// loop end, then, turned back, from the loop start for what is left.
    pub open spec fn scan(self, notes: Map<NoteId, Note>, length: int) -> (PlayerView, Seq<Event>) {
        if self.wraps(length) {
            let (first, head) = self.scan_range(notes, self.loop_end());
            let rest = length - (self.loop_end() - self.cursor);
            if rest == 0 {
                (first.turned(), head)
            } else {
                let (second, tail) = first.turned().scan_range(notes, self.loop_start() + rest);
                (PlayerView { cursor: self.loop_start() + rest, ..second }, head + tail)
            }
        } else {
            let (first, head) = self.scan_range(notes, self.cursor + length);
            (PlayerView { cursor: self.cursor + length, ..first }, head)
        }
    }

    /// Every number that `scan` comes by fits the machine word, and no note
    /// that it reads has a negative length.
    pub open spec fn scan_fits(self, notes: Map<NoteId, Note>, length: int) -> bool {
        if self.wraps(length) {
            let first = self.scan_range(notes, self.loop_end()).0;
            let rest = length - (self.loop_end() - self.cursor);
            &&& self.list_fits(self.scanned(notes, self.loop_end()))
            &&& first.turned().start_sample <= usize::MAX
            &&& rest > 0 ==> self.loop_start() + rest <= usize::MAX && first.turned().list_fits(
                first.turned().scanned(notes, self.loop_start() + rest),
            )
        } else {
            &&& self.cursor + length <= usize::MAX
            &&& self.list_fits(self.scanned(notes, self.cursor + length))
        }
    }

    /// An advance of the shown position by `length` reaches the end of the
    /// loop from inside it.
    pub open spec fn frame_wraps(self, length: int) -> bool {
        self.looping is Some && self.playing_frame < self.loop_end() && self.playing_frame + length
            >= self.loop_end()
    }

    /// The shown position after `length` more samples: it moves on by
    /// `length`, and where that reaches the loop end from inside the loop it
    /// is set back by the length of the loop.
    pub open spec fn advance(self, length: int) -> PlayerView {
        if self.frame_wraps(length) {
            PlayerView {
                playing_frame: self.playing_frame + length - (self.loop_end() - self.loop_start()),
                ..self
            }
        } else {
            PlayerView { playing_frame: self.playing_frame + length, ..self }
        }
    }

    /// The periodic step for `samples` of played time: nothing while
    /// stopped; while playing, the shown position advances and the same span
    /// of the time line is turned into events.
    pub open spec fn process(self, notes: Map<NoteId, Note>, samples: int) -> (PlayerView, Seq<Event>) {
        if self.playing {
            self.advance(samples).scan(notes, samples)
        } else {
            (self, Seq::empty())
        }
    }

    /// Every number that `process` comes by fits the machine word.
    pub open spec fn process_fits(self, notes: Map<NoteId, Note>, samples: int) -> bool {
        self.playing ==> self.advance(samples).playing_frame <= usize::MAX && self.advance(
            samples,
        ).scan_fits(notes, samples)
    }

    /// The state in which playback starts at the output sample
    /// `start_sample`: anchored there, with the cursor at the shown
    /// position.
    pub open spec fn anchored(self, start_sample: int) -> PlayerView {
        PlayerView {
            start_sample,
            cursor: self.playing_frame,
            start_cursor: self.playing_frame,
            playing: true,
            ..self
        }
    }

    /// Starting playback: nothing while playing already; else the
    /// transport is anchored and one buffer ahead is scanned at once.
    pub open spec fn play(self, notes: Map<NoteId, Note>, start_sample: int) -> (PlayerView, Seq<Event>) {
        if self.playing {
            (self, Seq::empty())
        } else {
            self.anchored(start_sample).scan(notes, self.buffer_size)
        }
    }

    /// Every number that `play` comes by fits the machine word.
    pub open spec fn play_fits(self, notes: Map<NoteId, Note>, start_sample: int) -> bool {
        !self.playing ==> self.anchored(start_sample).scan_fits(notes, self.buffer_size)
    }

    /// An event that is due at once.
    pub open spec fn immediate(self, data: EventData) -> Event {
        Event { sample: 0, sequence: self.sequence as usize, data }
    }

    /// Stopping playback: one `ClearEvents`, due at once.
    pub open spec fn pause(self) -> (PlayerView, Seq<Event>) {
        (
            PlayerView { playing: false, sequence: self.sequence + 1, ..self },
            seq![self.immediate(EventData::ClearEvents)],
        )
    }

    /// Moving the shown position to `tick`: while stopped nothing else
    /// happens; while playing, playback is paused and started again from
    /// there.
    pub open spec fn seek(self, notes: Map<NoteId, Note>, start_sample: int, tick: int) -> (
        PlayerView,
        Seq<Event>,
    ) {
        let moved = PlayerView { playing_frame: tick * self.samples_per_tick, ..self };
        if self.playing {
            let (paused, clear) = moved.pause();
            let (playing, events) = paused.play(notes, start_sample);
            (playing, clear + events)
        } else {
            (moved, Seq::empty())
        }
    }

    /// Every number that `seek` comes by fits the machine word.
    pub open spec fn seek_fits(self, notes: Map<NoteId, Note>, start_sample: int, tick: int) -> bool {
        let moved = PlayerView { playing_frame: tick * self.samples_per_tick, ..self };
        &&& 0 <= tick
        &&& tick * self.samples_per_tick <= usize::MAX
        &&& self.playing ==> self.sequence + 1 <= usize::MAX && moved.pause().0.play_fits(
            notes,
            start_sample,
        )
    }

    /// The loop region in samples for a region in ticks.
    pub open spec fn loop_region(self, region: Option<(i32, i32)>) -> Option<(int, int)> {
        match region {
            Some((start, end)) => Some((start * self.samples_per_tick, end * self.samples_per_tick)),
            None => None,
        }
    }

    /// Auditioning `pitch` on channel 1: the pitch that was auditioned
    /// before, if any, ends first.
    pub open spec fn play_preview(self, pitch: Pitch) -> (PlayerView, Seq<Event>) {
        match self.preview {
            Some(old_pitch) => (
                PlayerView { preview: Some(pitch), sequence: self.sequence + 2, ..self },
                seq![
                    self.immediate(EventData::NoteOff(1, old_pitch)),
                    PlayerView { sequence: self.sequence + 1, ..self }.immediate(
                        EventData::NoteOn(1, pitch),
                    ),
                ],
            ),
            None => (
                PlayerView { preview: Some(pitch), sequence: self.sequence + 1, ..self },
                seq![self.immediate(EventData::NoteOn(1, pitch))],
            ),
        }
    }

    /// Ending the audition, if there is one.
    pub open spec fn stop_preview(self) -> (PlayerView, Seq<Event>) {
        match self.preview {
            Some(old_pitch) => (
                PlayerView { preview: None, sequence: self.sequence + 1, ..self },
                seq![self.immediate(EventData::NoteOff(1, old_pitch))],
            ),
            None => (self, Seq::empty()),
        }
    }
}

/// The transport. It reads the notes of a sequence and sends their events
/// through its controller.
pub struct Player<C: Controller> {
    sequence: usize,
    start_sample: usize,
    start_cursor: usize,
    looping: Option<(usize, usize)>,
    samples_per_tick: usize,
    controller: C,
    cursor: usize,
    playing: bool,
    preview: Option<Pitch>,
    buffer_size: usize,
    playing_frame: usize,
}

impl<C: Controller> View for Player<C> {
    type V = PlayerView;

    closed spec fn view(&self) -> PlayerView {
        PlayerView {
            samples_per_tick: self.samples_per_tick as int,
            buffer_size: self.buffer_size as int,
            sequence: self.sequence as int,
            start_sample: self.start_sample as int,
            start_cursor: self.start_cursor as int,
            cursor: self.cursor as int,
            playing_frame: self.playing_frame as int,
            playing: self.playing,
            looping: match self.looping {
                Some((start, end)) => Some((start as int, end as int)),
                None => None,
            },
            preview: self.preview,
        }
    }
}

/// The first tick that does not start before `sample`, cut off one past the
/// last tick that a note can have.
fn first_tick(sample: usize, samples_per_tick: usize) -> (tick: i64)
    requires
        samples_per_tick > 0,
    ensures
        0 <= tick <= 0x8000_0000,
        tick == if tick_at_or_after(sample as int, samples_per_tick as int) <= 0x8000_0000 {
            tick_at_or_after(sample as int, samples_per_tick as int)
        } else {
            0x8000_0000
        },
{
    let whole = sample / samples_per_tick;
    let rest = sample % samples_per_tick;
    assert(tick_at_or_after(sample as int, samples_per_tick as int) == if rest == 0 {
        whole as int
    } else {
        whole + 1
    }) by (nonlinear_arith)
        requires
            samples_per_tick > 0,
            whole == sample as int / samples_per_tick as int,
            rest == sample as int % samples_per_tick as int,
    ;
    if whole >= 0x8000_0000 {
        0x8000_0000
    } else if rest == 0 {
        whole as i64
    } else {
        (whole + 1) as i64
    }
}

impl<C: Controller> Player<C> {
    /// The controller as it stands.
    pub closed spec fn spec_controller(&self) -> C {
        self.controller
    }

    /// A stopped transport at position zero that sends through `controller`.
    /// `buffer_size` is how far `play` looks ahead, in samples.
    pub fn new(samples_per_tick: usize, controller: C, buffer_size: usize) -> (player: Player<C>)
        requires
            samples_per_tick > 0,
        ensures
            player@ == (PlayerView {
                samples_per_tick: samples_per_tick as int,
                buffer_size: buffer_size as int,
                sequence: 0,
                start_sample: 0,
                start_cursor: 0,
                cursor: 0,
                playing_frame: 0,
                playing: false,
                looping: None,
                preview: None,
            }),
            player@.wf(),
            player.spec_controller() == controller,
    {
        Player {
            sequence: 0,
            start_sample: 0,
            start_cursor: 0,
            looping: None,
            samples_per_tick,
            controller,
            cursor: 0,
            playing: false,
            preview: None,
            buffer_size,
            playing_frame: 0,
        }
    }

    /// The output sample at which the start of `tick` sounds.
    fn time_of(&self, tick: i64) -> (sample: usize)
        requires
            self@.wf(),
            0 <= tick <= 0xffff_ffff,
            tick * self@.samples_per_tick >= self@.cursor,
            self@.event_time(tick as int) <= usize::MAX,
        ensures
            sample == self@.event_time(tick as int),
    {
        let position: u128 = (tick as u128) * (self.samples_per_tick as u128);
        assert(tick * self.samples_per_tick <= 0xffff_ffff * 0xffff_ffff_ffff_ffff)
            by (nonlinear_arith)
            requires
                0 <= tick <= 0xffff_ffff,
                0 <= self.samples_per_tick <= 0xffff_ffff_ffff_ffff,
        ;
        let stamp: u128 = (self.start_sample as u128) + position - (self.start_cursor as u128);
        stamp as usize
    }

    /// Sends the events of the notes that start from the cursor up to `to`.
    fn scan_event_range(&mut self, notes: &Sequence, to: usize)
        requires
            old(self)@.wf(),
            notes.wf(),
            old(self)@.list_fits(old(self)@.scanned(notes@, to as int)),
        ensures
            final(self)@ == old(self)@.scan_range(notes@, to as int).0,
            final(self).spec_controller().sent() == old(self).spec_controller().sent()
                + old(self)@.scan_range(notes@, to as int).1,
    {
        let ghost before = self@;
        let ghost sent = self.controller.sent();
        let from_tick = first_tick(self.cursor, self.samples_per_tick);
        let to_tick = first_tick(to, self.samples_per_tick);
        let list = notes.notes_in_span(from_tick, to_tick);
        proof {
            let low = tick_at_or_after(before.cursor, before.samples_per_tick);
            let high = tick_at_or_after(to as int, before.samples_per_tick);
            assert(lists_range(list@, notes@, low, high));
            lemma_listing_unique(list@, list@, notes@, low, high);
            assert(list@ == before.scanned(notes@, to as int));
        }
        let mut i: usize = 0;
        while i < list.len()
            invariant
                0 <= i <= list.len(),
                before.wf(),
                before.list_fits(list@),
                lists_range(
                    list@,
                    notes@,
                    tick_at_or_after(before.cursor, before.samples_per_tick),
                    tick_at_or_after(to as int, before.samples_per_tick),
                ),
                self@ == (PlayerView { sequence: before.sequence + 2 * i, ..before }),
                self.controller.sent() == sent + before.note_events(list@).subrange(0, 2 * i),
            decreases list.len() - i,
        {
            let note = list[i].1;
            proof {
                assert(notes@.contains_key(list@[i as int].0));
                lemma_tick_at_or_after(
                    note.tick as int,
                    before.cursor,
                    before.samples_per_tick,
                );
                assert((note.tick + note.length) * before.samples_per_tick >= note.tick
                    * before.samples_per_tick) by (nonlinear_arith)
                    requires
                        note.length >= 0,
                        before.samples_per_tick > 0,
                ;
            }
            let on = self.time_of(note.tick as i64);
            let off = self.time_of(note.tick as i64 + note.length as i64);
            self.controller.send_event(
                Event { sample: on, sequence: self.sequence, data: EventData::NoteOn(0, note.pitch) },
            );
            self.sequence = self.sequence + 1;
            self.controller.send_event(
                Event { sample: off, sequence: self.sequence, data: EventData::NoteOff(0, note.pitch) },
            );
            self.sequence = self.sequence + 1;
            proof {
                let events = before.note_events(list@);
                assert(events[2 * i] == before.note_event(list@, 2 * i));
                assert(events[2 * i + 1] == before.note_event(list@, 2 * i + 1));
                assert(events.subrange(0, 2 * (i + 1)) =~= events.subrange(0, 2 * i).push(
                    events[2 * i],
                ).push(events[2 * i + 1]));
            }
            i += 1;
        }
        proof {
            let events = before.note_events(list@);
            assert(events.subrange(0, 2 * list.len()) =~= events);
        }
    }

    /// Turns the next `length` samples of the time line into events.
    fn scan_events(&mut self, notes: &Sequence, length: usize)
        requires
            old(self)@.wf(),
            notes.wf(),
            old(self)@.scan_fits(notes@, length as int),
        ensures
            final(self)@ == old(self)@.scan(notes@, length as int).0,
            final(self)@.wf(),
            final(self).spec_controller().sent() == old(self).spec_controller().sent() + old(
                self,
            )@.scan(notes@, length as int).1,
    {
        let mut length = length;
        if let Some((loop_start, loop_end)) = self.looping {
            if self.cursor < loop_end && length >= loop_end - self.cursor {
                self.scan_event_range(notes, loop_end);
                length = length - (loop_end - self.cursor);
                self.start_sample = self.start_sample + (loop_end - loop_start);
                self.cursor = loop_start;
                // at the very end of the loop nothing is left to scan
                if length == 0 {
                    return ;
                }
            }
        }
        let to = self.cursor + length;
        self.scan_event_range(notes, to);
        self.cursor = to;
    }

    /// Moves the shown position on by `length` samples.
    fn advance_playing_frame(&mut self, length: usize)
        requires
            old(self)@.wf(),
            old(self)@.advance(length as int).playing_frame <= usize::MAX,
        ensures
            final(self)@ == old(self)@.advance(length as int),
            final(self)@.wf(),
            final(self).spec_controller() == old(self).spec_controller(),
    {
        if let Some((loop_start, loop_end)) = self.looping {
            if self.playing_frame < loop_end && length >= loop_end - self.playing_frame {
                self.playing_frame = loop_start + (length - (loop_end - self.playing_frame));
                return ;
            }
        }
        self.playing_frame = self.playing_frame + length;
    }

    /// Sets or clears the loop region, given in ticks. Events that were
    /// sent already stay as they are.
    pub fn set_loop(&mut self, looping: Option<(i32, i32)>)
        requires
            old(self)@.wf(),
            looping matches Some((start, end)) ==> 0 <= start <= end && end * old(
                self,
            )@.samples_per_tick <= usize::MAX,
        ensures
            final(self)@ == (PlayerView { looping: old(self)@.loop_region(looping), ..old(self)@ }),
            final(self)@.wf(),
            final(self).spec_controller() == old(self).spec_controller(),
    {
        match looping {
            Some((start, end)) => {
                proof {
                    assert(0 <= start * self.samples_per_tick <= end * self.samples_per_tick)
                        by (nonlinear_arith)
                        requires
                            0 <= start <= end,
                            self.samples_per_tick > 0,
                    ;
                }
                self.looping = Some(
                    (start as usize * self.samples_per_tick, end as usize * self.samples_per_tick),
                );
            },
            None => {
                self.looping = None;
            },
        }
    }

    /// Starts playback, anchored at the output sample `start_sample`, and
    /// sends the events of the first buffer at once. Does nothing while
    /// playing already.
    pub fn play(&mut self, notes: &Sequence, start_sample: usize)
        requires
            old(self)@.wf(),
            notes.wf(),
            old(self)@.play_fits(notes@, start_sample as int),
        ensures
            final(self)@ == old(self)@.play(notes@, start_sample as int).0,
            final(self)@.wf(),
            final(self).spec_controller().sent() == old(self).spec_controller().sent() + old(
                self,
            )@.play(notes@, start_sample as int).1,
    {
        if !self.playing {
            self.start_sample = start_sample;
            self.cursor = self.playing_frame;
            self.playing = true;
            self.start_cursor = self.cursor;
            let ahead = self.buffer_size;
            self.scan_events(notes, ahead);
        }
    }

    /// Sends one event that is due at once.
    fn send_immediate(&mut self, data: EventData)
        requires
            old(self)@.wf(),
            old(self)@.sequence + 1 <= usize::MAX,
        ensures
            final(self)@ == (PlayerView { sequence: old(self)@.sequence + 1, ..old(self)@ }),
            final(self)@.wf(),
            final(self).spec_controller().sent() == old(self).spec_controller().sent().push(
                old(self)@.immediate(data),
            ),
    {
        self.controller.send_event(Event { sample: 0, sequence: self.sequence, data });
        self.sequence = self.sequence + 1;
    }

    /// Stops playback and sends one `ClearEvents`, due at once, which tells
    /// the renderer to drop what waits and to silence what sounds.
    pub fn pause(&mut self)
        requires
            old(self)@.wf(),
            old(self)@.sequence + 1 <= usize::MAX,
        ensures
            final(self)@ == old(self)@.pause().0,
            final(self)@.wf(),
            final(self).spec_controller().sent() == old(self).spec_controller().sent() + old(
                self,
            )@.pause().1,
    {
        self.playing = false;
        self.send_immediate(EventData::ClearEvents);
    }

    /// Moves the shown position to the tick `cursor`. While playing, the
    /// transport pauses and plays on from there, anchored at `start_sample`.
    pub fn seek(&mut self, notes: &Sequence, start_sample: usize, cursor: i32)
        requires
            old(self)@.wf(),
            notes.wf(),
            old(self)@.seek_fits(notes@, start_sample as int, cursor as int),
        ensures
            final(self)@ == old(self)@.seek(notes@, start_sample as int, cursor as int).0,
            final(self)@.wf(),
            final(self).spec_controller().sent() == old(self).spec_controller().sent() + old(
                self,
            )@.seek(notes@, start_sample as int, cursor as int).1,
    {
        self.playing_frame = cursor as usize * self.samples_per_tick;
        if self.playing {
            self.pause();
            self.play(notes, start_sample);
        }
    }

    /// The shown position in whole ticks.
    pub fn get_position(&self) -> (tick: i32)
        requires
            self@.wf(),
            self@.playing_frame / self@.samples_per_tick <= i32::MAX,
        ensures
            tick == self@.playing_frame / self@.samples_per_tick,
    {
        (self.playing_frame / self.samples_per_tick) as i32
    }

    /// The periodic step: `samples` more samples have been played.
    pub fn process(&mut self, notes: &Sequence, samples: usize)
        requires
            old(self)@.wf(),
            notes.wf(),
            old(self)@.process_fits(notes@, samples as int),
        ensures
            final(self)@ == old(self)@.process(notes@, samples as int).0,
            final(self)@.wf(),
            final(self).spec_controller().sent() == old(self).spec_controller().sent() + old(
                self,
            )@.process(notes@, samples as int).1,
    {
        if !self.playing {
            return ;
        }
        self.advance_playing_frame(samples);
        self.scan_events(notes, samples);
    }

    /// Auditions `pitch` on channel 1, apart from playback. A pitch that is
    /// being auditioned ends first, so that one sounds at a time.
    pub fn play_preview(&mut self, pitch: Pitch)
        requires
            old(self)@.wf(),
            old(self)@.sequence + 2 <= usize::MAX,
        ensures
            final(self)@ == old(self)@.play_preview(pitch).0,
            final(self)@.wf(),
            final(self).spec_controller().sent() == old(self).spec_controller().sent() + old(
                self,
            )@.play_preview(pitch).1,
    {
        if let Some(old_pitch) = self.preview {
            self.send_immediate(EventData::NoteOff(1, old_pitch));
        }
        self.send_immediate(EventData::NoteOn(1, pitch));
        self.preview = Some(pitch);
    }

    /// Ends the audition, if there is one.
    pub fn stop_preview(&mut self)
        requires
            old(self)@.wf(),
            old(self)@.sequence + 1 <= usize::MAX,
        ensures
            final(self)@ == old(self)@.stop_preview().0,
            final(self)@.wf(),
            final(self).spec_controller().sent() == old(self).spec_controller().sent() + old(
                self,
            )@.stop_preview().1,
    {
        if let Some(old_pitch) = self.preview {
            self.send_immediate(EventData::NoteOff(1, old_pitch));
        }
        self.preview = None;
    }

    /// The shown position in samples.
    pub fn playing_frame(&self) -> (frame: usize)
        ensures
            frame == self@.playing_frame,
    {
        self.playing_frame
    }

    /// How many samples a tick lasts.
    pub fn samples_per_tick(&self) -> (samples: usize)
        ensures
            samples == self@.samples_per_tick,
    {
        self.samples_per_tick
    }

    /// The number that the next event gets to settle ties.
    pub fn next_sequence(&self) -> (sequence: usize)
        ensures
            sequence == self@.sequence,
    {
        self.sequence
    }

    /// Whether the transport plays.
    pub fn is_playing(&self) -> (playing: bool)
        ensures
            playing == self@.playing,
    {
        self.playing
    }

    /// The controller through which the events go.
    pub fn controller(&self) -> (controller: &C)
        ensures
            *controller == self.spec_controller(),
    {
        &self.controller
    }

    /// The controller through which the events go, to change it in place.
    pub fn controller_mut(&mut self) -> (controller: &mut C)
        ensures
            *controller == old(self).spec_controller(),
            final(self)@ == old(self)@,
            final(self).spec_controller() == *final(controller),
    {
        &mut self.controller
    }
}

/// `tick_at_or_after` never falls as the position rises.
proof fn lemma_tick_monotone(low: int, high: int, samples_per_tick: int)
    requires
        samples_per_tick > 0,
        low <= high,
    ensures
        tick_at_or_after(low, samples_per_tick) <= tick_at_or_after(high, samples_per_tick),
{
    lemma_tick_at_or_after(tick_at_or_after(high, samples_per_tick), high, samples_per_tick);
    lemma_tick_at_or_after(tick_at_or_after(high, samples_per_tick), low, samples_per_tick);
}

/// The events of two lists of notes, one after the other, are the events of
/// the first list followed by those of the second, numbered on.
pub proof fn lemma_note_events_concat(
    view: PlayerView,
    first: Seq<(NoteId, Note)>,
    second: Seq<(NoteId, Note)>,
)
    ensures
        view.note_events(first + second) == view.note_events(first) + (PlayerView {
            sequence: view.sequence + 2 * first.len(),
            ..view
        }).note_events(second),
{
    let later = PlayerView { sequence: view.sequence + 2 * first.len(), ..view };
    let whole = view.note_events(first + second);
    let parts = view.note_events(first) + later.note_events(second);
    assert(whole.len() == parts.len());
    assert forall|i: int| 0 <= i < whole.len() implies whole[i] == parts[i] by {
        if i < 2 * first.len() {
            assert((first + second)[i / 2] == first[i / 2]);
        } else {
            let j = i - 2 * first.len();
            assert(j / 2 == i / 2 - first.len());
            assert(j % 2 == i % 2);
            assert((first + second)[i / 2] == second[j / 2]);
            assert(parts[i] == later.note_event(second, j));
        }
    }
    assert(whole =~= parts);
}

/// Scanning up to a position is scanning up to any position before it and
/// then on from there.
proof fn lemma_scan_range_split(view: PlayerView, seq: Sequence, middle: int, to: int)
    requires
        view.wf(),
        seq.wf(),
        view.cursor <= middle <= to,
    ensures
        ({
            let (first, head) = view.scan_range(seq@, middle);
            let (second, tail) = (PlayerView { cursor: middle, ..first }).scan_range(seq@, to);
            view.scan_range(seq@, to) == (PlayerView { cursor: view.cursor, ..second }, head + tail)
        }),
{
    let spt = view.samples_per_tick;
    lemma_tick_monotone(view.cursor, middle, spt);
    lemma_tick_monotone(middle, to, spt);
    lemma_listing_split(
        seq,
        tick_at_or_after(view.cursor, spt),
        tick_at_or_after(middle, spt),
        tick_at_or_after(to, spt),
    );
    let low = view.scanned(seq@, middle);
    let (first, head) = view.scan_range(seq@, middle);
    let moved = PlayerView { cursor: middle, ..first };
    let high = moved.scanned(seq@, to);
    lemma_note_events_concat(view, low, high);
    assert(moved.note_events(high) =~= (PlayerView {
        sequence: view.sequence + 2 * low.len(),
        ..view
    }).note_events(high));
}

/// Scanning nothing sends nothing.
proof fn lemma_scan_range_empty(view: PlayerView, notes: Map<NoteId, Note>)
    ensures
        view.scan_range(notes, view.cursor) == (view, Seq::<Event>::empty()),
{
    let tick = tick_at_or_after(view.cursor, view.samples_per_tick);
    let none = Seq::<(NoteId, Note)>::empty();
    assert(lists_range(none, notes, tick, tick));
    lemma_listing_unique(none, none, notes, tick, tick);
    assert(view.note_events(none) =~= Seq::<Event>::empty());
}

/// Played time may be handed over in any chunks: two steps of `first` and
/// then `second` samples send the events, with the time stamps and in the
/// order, that one step of `first + second` samples sends, and leave the
/// same state. Nothing is lost or sent twice where a chunk ends at the very
/// end of the loop. This holds as long as the two steps do not both turn
/// back at the loop end, which one step does once at most.
pub proof fn lemma_scan_in_chunks(view: PlayerView, seq: Sequence, first: int, second: int)
    requires
        view.wf(),
        seq.wf(),
        first >= 0,
        second >= 0,
        !(view.wraps(first) && view.scan(seq@, first).0.wraps(second)),
    ensures
        ({
            let (middle, head) = view.scan(seq@, first);
            let (end, tail) = middle.scan(seq@, second);
            view.scan(seq@, first + second) == (end, head + tail)
        }),
{
    let notes = seq@;
    let (middle, head) = view.scan(notes, first);
    let (end, tail) = middle.scan(notes, second);
    let whole = view.scan(notes, first + second);
    if view.wraps(first) {
        let loop_start = view.loop_start();
        let loop_end = view.loop_end();
        let (at_end, to_end) = view.scan_range(notes, loop_end);
        let turned = at_end.turned();
        let rest = first - (loop_end - view.cursor);
        assert(view.wraps(first + second));
        if rest == 0 {
            assert(middle == turned);
            if second == 0 {
                lemma_scan_range_empty(turned, notes);
                assert(head + tail =~= head);
            } else {
                assert(whole == (end, head + tail));
            }
        } else {
            lemma_scan_range_split(turned, seq, loop_start + rest, loop_start + rest + second);
            assert(whole.1 =~= head + tail);
        }
    } else if middle.wraps(second) {
        lemma_scan_range_split(view, seq, view.cursor + first, view.loop_end());
        assert(view.wraps(first + second));
        assert(whole.1 =~= head + tail);
    } else {
        lemma_scan_range_split(view, seq, view.cursor + first, view.cursor + first + second);
        assert(whole.1 =~= head + tail);
    }
}

/// A scan moves the cursor on by just the played time, loop or no loop: the
/// output sample that the cursor has reached rises by `length`.
pub proof fn lemma_scan_keeps_time(view: PlayerView, notes: Map<NoteId, Note>, length: int)
    requires
        view.wf(),
        length >= 0,
    ensures
        view.scan(notes, length).0.wf(),
        view.scan(notes, length).0.clock() == view.clock() + length,
{
}

/// The note-on of the `k`-th note among events that are note-ons and
/// note-offs in turn.
pub open spec fn on_at(events: Seq<Event>, k: int) -> Event {
    events[2 * k]
}

/// The note-off of the `k`-th note among events that are note-ons and
/// note-offs in turn.
pub open spec fn off_at(events: Seq<Event>, k: int) -> Event {
    events[2 * k + 1]
}

/// The events are note-ons and note-offs in turn, each note-on is stamped
/// at an output sample from `from` up to, not including, `to`, and no
/// note-off is stamped before its note-on.
pub open spec fn stamped_within(events: Seq<Event>, from: int, to: int) -> bool {
    &&& events.len() % 2 == 0
    &&& forall|k: int|
        0 <= k < events.len() / 2 ==> from <= (#[trigger] on_at(events, k)).sample < to && on_at(
            events,
            k,
        ).sample <= off_at(events, k).sample
}

/// Events stamped within one stretch, followed by events stamped within
/// the stretch after it, are stamped within the two stretches together.
proof fn lemma_stamped_concat(head: Seq<Event>, tail: Seq<Event>, from: int, middle: int, to: int)
    requires
        stamped_within(head, from, middle),
        stamped_within(tail, middle, to),
        from <= middle <= to,
    ensures
        stamped_within(head + tail, from, to),
{
    let events = head + tail;
    let half = head.len() / 2;
    assert forall|k: int| 0 <= k < events.len() / 2 implies from <= (#[trigger] on_at(
        events,
        k,
    )).sample < to && on_at(events, k).sample <= off_at(events, k).sample by {
        if k < half {
            assert(on_at(events, k) == on_at(head, k));
            assert(off_at(events, k) == off_at(head, k));
        } else {
            assert(events[2 * k] == tail[2 * k - head.len()]);
            assert(events[2 * k + 1] == tail[2 * k + 1 - head.len()]);
            assert(on_at(events, k) == on_at(tail, k - half));
            assert(off_at(events, k) == off_at(tail, k - half));
        }
    }
}

/// The events of a scanned stretch are stamped within the stretch of
/// output samples that the scan covers.
proof fn lemma_range_times(view: PlayerView, seq: Sequence, to: int)
    requires
        view.wf(),
        seq.wf(),
        view.cursor <= to,
        view.list_fits(view.scanned(seq@, to)),
    ensures
        stamped_within(
            view.scan_range(seq@, to).1,
            view.clock(),
            view.clock() + (to - view.cursor),
        ),
{
    let spt = view.samples_per_tick;
    let low = tick_at_or_after(view.cursor, spt);
    let high = tick_at_or_after(to, spt);
    lemma_listing_exists(seq, low, high);
    let list = view.scanned(seq@, to);
    let events = view.scan_range(seq@, to).1;
    assert forall|k: int| 0 <= k < events.len() / 2 implies view.clock() <= (#[trigger] on_at(
        events,
        k,
    )).sample < view.clock() + (to - view.cursor) && on_at(events, k).sample <= off_at(
        events,
        k,
    ).sample by {
        let note = list[k].1;
        assert(seq@.contains_key(list[k].0));
        lemma_tick_at_or_after(note.tick as int, view.cursor, spt);
        lemma_tick_at_or_after(note.tick as int, to, spt);
        assert((note.tick + note.length) * spt >= note.tick * spt) by (nonlinear_arith)
            requires
                note.length >= 0,
                spt > 0,
        ;
        assert((2 * k) / 2 == k && (2 * k + 1) / 2 == k);
        assert(events[2 * k] == view.note_event(list, 2 * k));
        assert(events[2 * k + 1] == view.note_event(list, 2 * k + 1));
    }
}

/// Time stamps keep rising through a loop as if the loop were written out
/// again and again: each note-on that a scan of `length` samples sends is
/// stamped inside the `length` output samples that follow the sample which
/// the cursor had reached, also where the scan turns back at the loop end;
/// and no note-off is stamped before its note-on.
pub proof fn lemma_scan_times(view: PlayerView, seq: Sequence, length: int)
    requires
        view.wf(),
        seq.wf(),
        length >= 0,
        view.scan_fits(seq@, length),
    ensures
        stamped_within(view.scan(seq@, length).1, view.clock(), view.clock() + length),
{
    let notes = seq@;
    if view.wraps(length) {
        let (first, head) = view.scan_range(notes, view.loop_end());
        let rest = length - (view.loop_end() - view.cursor);
        lemma_range_times(view, seq, view.loop_end());
        if rest > 0 {
            let turned = first.turned();
            let tail = turned.scan_range(notes, view.loop_start() + rest).1;
            assert(turned.wf());
            assert(turned.clock() == view.clock() + (view.loop_end() - view.cursor));
            lemma_range_times(turned, seq, view.loop_start() + rest);
            lemma_stamped_concat(
                head,
                tail,
                view.clock(),
                view.clock() + (view.loop_end() - view.cursor),
                view.clock() + length,
            );
            assert(view.scan(notes, length).1 == head + tail);
        }
    } else {
        lemma_range_times(view, seq, view.cursor + length);
    }
}

/// Two pauses in a row send two `ClearEvents`, both due at once and
/// numbered one after the other, and leave the transport stopped.
pub proof fn lemma_pause_twice(view: PlayerView)
    ensures
        ({
            let (once, first) = view.pause();
            let (twice, second) = once.pause();
            &&& first + second == seq![
                Event { sample: 0, sequence: view.sequence as usize, data: EventData::ClearEvents },
                Event {
                    sample: 0,
                    sequence: (view.sequence + 1) as usize,
                    data: EventData::ClearEvents,
                },
            ]
            &&& twice == PlayerView { sequence: view.sequence + 2, ..once }
            &&& !twice.playing
        }),
{
    let (once, first) = view.pause();
    let (twice, second) = once.pause();
    assert(first + second =~= seq![
        Event { sample: 0, sequence: view.sequence as usize, data: EventData::ClearEvents },
        Event { sample: 0, sequence: (view.sequence + 1) as usize, data: EventData::ClearEvents },
    ]);
}

} // verus!
