//! The renderer's plan: it keeps the events it has received in order and,
//! for each output buffer, says what the synthesizer has to do and which
//! stretch of the buffer it has to fill in between, so that every event
//! takes effect at its own sample.

use crate::audio::controller::{Controller, Event, EventData};
use crossbeam::queue::SegQueue;
use std::sync::Arc;
use vstd::prelude::*;

verus! {

/// `crossbeam::queue::SegQueue`, an unbounded queue that threads share.
/// Nothing inside it is visible to proofs, and nothing is claimed of it.
#[verifier::external_type_specification]
#[verifier::external_body]
#[verifier::reject_recursive_types(T)]
pub struct ExSegQueue<T>(SegQueue<T>);

/// Calls `SegQueue::push`, which puts the event at the tail of the queue
/// and does not wait. Nothing is claimed of the queue, which other threads
/// share.
#[verifier::external_body]
fn queue_push(queue: &Arc<SegQueue<Event>>, event: Event) {
    queue.push(event)
}

/// Calls `SegQueue::pop`, which takes the event at the head of the queue,
/// or gives `None` where the queue is empty, and does not wait. Nothing is
/// claimed of what comes out: it depends on what other threads have pushed.
#[verifier::external_body]
fn queue_pop(queue: &Arc<SegQueue<Event>>) -> Option<Event> {
    queue.pop()
}

/// Calls `SegQueue::len`. Nothing is claimed of the length: other threads
/// may change it at any time.
#[verifier::external_body]
fn queue_len(queue: &Arc<SegQueue<Event>>) -> usize {
    queue.len()
}

/// Calls `Vec::drain` on the range from the front up to `count` and drops
/// what it takes out. The contract claims that the first `count` events
/// leave the vector and the others stay in their order. `drain` panics on a
/// range that ends behind the vector's end.
#[verifier::external_body]
fn drop_front(events: &mut Vec<Event>, count: usize)
    requires
        count <= old(events)@.len(),
    ensures
        final(events)@ == old(events)@.subrange(count as int, old(events)@.len() as int),
{
    events.drain(0..count);
}

/// The sending end of the queue between the transport and the renderer.
pub struct RedoxSynthController {
    event_queue: Arc<SegQueue<Event>>,
    sent: Ghost<Seq<Event>>,
}

impl Controller for RedoxSynthController {
    closed spec fn sent(&self) -> Seq<Event> {
        self.sent@
    }

    fn send_event(&mut self, event: Event) {
        queue_push(&self.event_queue, event);
        self.sent = Ghost(self.sent@.push(event));
    }
}

impl RedoxSynthController {
    /// A controller that pushes onto `event_queue` and has sent nothing yet.
    pub fn new(event_queue: Arc<SegQueue<Event>>) -> (controller: RedoxSynthController)
        ensures
            controller.sent() == Seq::<Event>::empty(),
    {
        RedoxSynthController { event_queue, sent: Ghost(Seq::empty()) }
    }
}

/// The output buffer interleaves this many channels.
pub const CHANNELS: usize = 2;

/// Every note is struck with this velocity.
pub const VELOCITY: u32 = 127;

/// The synthesizer's full pitch bend, in semitones.
pub const PITCH_BEND_RANGE: u32 = 2;

/// One call to make on the synthesizer.
#[derive(Clone, Copy, Debug, PartialEq, Eq, Structural)]
pub enum SynthCall {
    /// Start the key on the channel with the velocity: channel, key,
    /// velocity.
    NoteOn(u32, u32, u32),
    /// Bend the channel's pitch: channel, value.
    PitchBend(u32, u32),
    /// End the key on the channel: channel, key.
    NoteOff(u32, u32),
    /// Fill the buffer from the first index up to, not including, the
    /// second.
    Render(usize, usize),
}

/// What the renderer holds: the events that wait, and the notes that sound
/// as pairs of channel and key.
pub struct SourceView {
    pub events: Seq<Event>,
    pub playing_notes: Seq<(u32, u32)>,
}

/// The order of events: by sample, and by sequence number among events of
/// one sample.
pub open spec fn event_le(a: Event, b: Event) -> bool {
    a.sample < b.sample || (a.sample == b.sample && a.sequence <= b.sequence)
}

/// True when the events stand in their order.
pub open spec fn in_order(events: Seq<Event>) -> bool {
    forall|i: int, j: int| 0 <= i < j < events.len() ==> event_le(#[trigger] events[i], #[trigger] events[j])
}

/// Where a new event goes into events that stand in order: behind every
/// event that is not after it.
pub open spec fn place_of(events: Seq<Event>, event: Event) -> int
    decreases events.len(),
{
    if events.len() == 0 {
        0
    } else if event_le(events.last(), event) {
        events.len() as int
    } else {
        place_of(events.drop_last(), event)
    }
}

/// `place_of` parts events in order into those that are not after the new
/// event and those that are.
pub proof fn lemma_place_of(events: Seq<Event>, event: Event)
    requires
        in_order(events),
    ensures
        0 <= place_of(events, event) <= events.len(),
        forall|i: int| 0 <= i < place_of(events, event) ==> event_le(#[trigger] events[i], event),
        forall|i: int|
            place_of(events, event) <= i < events.len() ==> !event_le(#[trigger] events[i], event),
    decreases events.len(),
{
    if events.len() == 0 {
    } else if event_le(events.last(), event) {
        assert forall|i: int| 0 <= i < events.len() implies event_le(#[trigger] events[i], event) by {
            if i < events.len() - 1 {
                assert(event_le(events[i], events[events.len() - 1]));
            }
        }
    } else {
        let head = events.drop_last();
        assert forall|i: int, j: int| 0 <= i < j < head.len() implies event_le(
            #[trigger] head[i],
            #[trigger] head[j],
        ) by {
            assert(event_le(events[i], events[j]));
        }
        lemma_place_of(head, event);
        assert forall|i: int| 0 <= i < place_of(events, event) implies event_le(
            #[trigger] events[i],
            event,
        ) by {
            assert(head[i] == events[i]);
        }
        assert forall|i: int| place_of(events, event) <= i < events.len() implies !event_le(
            #[trigger] events[i],
            event,
        ) by {
            if i < head.len() {
                assert(head[i] == events[i]);
            }
        }
    }
}

/// The calls that end every sounding note, in the order in which the notes
/// are held.
pub open spec fn silence(playing: Seq<(u32, u32)>) -> Seq<SynthCall> {
    Seq::new(playing.len(), |i: int| SynthCall::NoteOff(playing[i].0, playing[i].1))
}

/// What an event does when it takes effect: the calls to make, and the
/// notes that sound afterwards.
pub open spec fn effect(data: EventData, playing: Seq<(u32, u32)>) -> (Seq<SynthCall>, Seq<(u32, u32)>) {
    match data {
        EventData::NoteOn(channel, pitch) => {
            let key = pitch.spec_midi_key() as u32;
            let bend = pitch.spec_midi_bend(PITCH_BEND_RANGE as int) as u32;
            (
                seq![SynthCall::NoteOn(channel, key, VELOCITY), SynthCall::PitchBend(channel, bend)],
                if playing.contains((channel, key)) {
                    playing
                } else {
                    playing.push((channel, key))
                },
            )
        },
        EventData::NoteOff(channel, pitch) => {
            let key = pitch.spec_midi_key() as u32;
            (seq![SynthCall::NoteOff(channel, key)], playing.remove_value((channel, key)))
        },
        EventData::ClearEvents => (silence(playing), Seq::empty()),
    }
}

/// The walk through the waiting events from the `at`-th on, for a buffer of
/// `frames` frames that starts at the output sample `sample`, of which
/// `generated` frames are spoken for.
pub struct Walk {
    /// How many events have taken effect.
    pub consumed: int,
    /// The calls to make, in order.
    pub calls: Seq<SynthCall>,
    /// How many frames of the buffer are spoken for.
    pub generated: int,
    /// The notes that sound.
    pub playing_notes: Seq<(u32, u32)>,
}

/// Walks through the events that are due before the buffer ends. An event
/// that lies ahead of the frames spoken for is preceded by a call that
/// fills the buffer up to the event's own frame; an event that is due
/// already takes effect on the spot.
pub open spec fn walk(
    events: Seq<Event>,
    at: int,
    sample: int,
    frames: int,
    generated: int,
    playing: Seq<(u32, u32)>,
) -> Walk
    decreases events.len() - at,
{
    if at < 0 || at >= events.len() || events[at].sample >= sample + frames {
        Walk { consumed: at, calls: Seq::empty(), generated, playing_notes: playing }
    } else {
        let event = events[at];
        let ahead = event.sample > sample + generated;
        let reached = if ahead {
            event.sample - sample
        } else {
            generated
        };
        let fill = if ahead {
            seq![SynthCall::Render((generated * CHANNELS) as usize, (reached * CHANNELS) as usize)]
        } else {
            Seq::empty()
        };
        let (calls, sounding) = effect(event.data, playing);
        let rest = walk(events, at + 1, sample, frames, reached, sounding);
        Walk { calls: fill + calls + rest.calls, ..rest }
    }
}

impl SourceView {
    /// The waiting events stand in order.
    pub open spec fn wf(self) -> bool {
        in_order(self.events)
    }

    /// Dropping every waiting event.
    pub open spec fn clear_events(self) -> SourceView {
        SourceView { events: Seq::empty(), ..self }
    }

    /// Putting an event in its place among the waiting ones.
    pub open spec fn insert_event(self, event: Event) -> SourceView {
        SourceView { events: self.events.insert(place_of(self.events, event), event), ..self }
    }

    /// Taking an event in from the channel: a `ClearEvents` first drops what
    /// waits, and then waits itself, to silence what sounds when it takes
    /// effect.
    pub open spec fn receive(self, event: Event) -> SourceView {
        if event.data is ClearEvents {
            self.clear_events().insert_event(event)
        } else {
            self.insert_event(event)
        }
    }

    /// Taking events in one after the other, in the order in which they
    /// arrive.
    pub open spec fn receive_all(self, arrived: Seq<Event>) -> SourceView
        decreases arrived.len(),
    {
        if arrived.len() == 0 {
            self
        } else {
            self.receive_all(arrived.drop_last()).receive(arrived.last())
        }
    }

    /// How many frames a buffer of `buffer_len` samples holds.
    pub open spec fn frames(buffer_len: int) -> int {
        buffer_len / (CHANNELS as int)
    }

    /// Rendering one buffer that starts at the output sample `sample`: the
    /// state afterwards and the calls to make. The events that are due
    /// before the buffer ends take effect and leave; the buffer is filled
    /// piece by piece between them, and from the last of them to its end.
    pub open spec fn render(self, sample: int, buffer_len: int) -> (SourceView, Seq<SynthCall>) {
        let frames = Self::frames(buffer_len);
        let done = walk(self.events, 0, sample, frames, 0, self.playing_notes);
        (
            SourceView {
                events: self.events.subrange(done.consumed, self.events.len() as int),
                playing_notes: done.playing_notes,
            },
            done.calls.push(
                SynthCall::Render(
                    (done.generated * CHANNELS) as usize,
                    (frames * CHANNELS) as usize,
                ),
            ),
        )
    }
}

/// The renderer's store of events and of sounding notes.
pub struct RedoxSynthSource {
    events: Vec<Event>,
    event_queue: Arc<SegQueue<Event>>,
    playing_notes: Vec<(u32, u32)>,
}

impl View for RedoxSynthSource {
    type V = SourceView;

    closed spec fn view(&self) -> SourceView {
        SourceView { events: self.events@, playing_notes: self.playing_notes@ }
    }
}

/// Where the note stands among the sounding ones, if it sounds.
fn find_note(playing: &Vec<(u32, u32)>, channel: u32, key: u32) -> (found: Option<usize>)
    ensures
        match found {
            Some(i) => playing@.index_of_first((channel, key)) == Some(i as int),
            None => playing@.index_of_first((channel, key)) is None,
        },
{
    let mut i: usize = 0;
    while i < playing.len()
        invariant
            0 <= i <= playing.len(),
            forall|j: int| 0 <= j < i ==> playing@[j] != (channel, key),
        decreases playing.len() - i,
    {
        if playing[i].0 == channel && playing[i].1 == key {
            proof {
                assert(playing@[i as int] == (channel, key));
                playing@.index_of_first_ensures((channel, key));
            }
            return Some(i);
        }
        i += 1;
    }
    proof {
        playing@.index_of_first_ensures((channel, key));
    }
    None
}

impl RedoxSynthSource {
    /// A renderer that takes its events from `event_queue`, with nothing
    /// waiting and nothing sounding.
    pub fn new(event_queue: Arc<SegQueue<Event>>) -> (source: RedoxSynthSource)
        ensures
            source.spec_queue() == event_queue,
            source@.events == Seq::<Event>::empty(),
            source@.playing_notes == Seq::<(u32, u32)>::empty(),
            source@.wf(),
    {
        RedoxSynthSource { events: Vec::new(), event_queue, playing_notes: Vec::new() }
    }

    /// The queue that the renderer takes its events from.
    pub closed spec fn spec_queue(&self) -> Arc<SegQueue<Event>> {
        self.event_queue
    }

    /// Drops every waiting event.
    pub fn clear_events(&mut self)
        ensures
            final(self)@ == old(self)@.clear_events(),
            final(self)@.wf(),
    {
        self.events.clear();
    }

    /// Puts an event in its place among the waiting ones: behind every
    /// event that is not after it.
    pub fn insert_event(&mut self, event: Event)
        requires
            old(self)@.wf(),
        ensures
            final(self)@ == old(self)@.insert_event(event),
            final(self)@.wf(),
    {
        let mut lo: usize = 0;
        let mut hi: usize = self.events.len();
        proof {
            lemma_place_of(self.events@, event);
        }
        while lo < hi
            invariant
                0 <= lo <= hi <= self.events.len(),
                in_order(self.events@),
                forall|i: int| 0 <= i < lo ==> event_le(#[trigger] self.events@[i], event),
                forall|i: int| hi <= i < self.events.len() ==> !event_le(#[trigger] self.events@[i], event),
            decreases hi - lo,
        {
            let mid: usize = lo + (hi - lo) / 2;
            let held = self.events[mid];
            if held.sample < event.sample || (held.sample == event.sample && held.sequence
                <= event.sequence) {
                assert forall|i: int| 0 <= i < mid + 1 implies event_le(
                    #[trigger] self.events@[i],
                    event,
                ) by {
                    if i < mid {
                        assert(event_le(self.events@[i], self.events@[mid as int]));
                    }
                }
                lo = mid + 1;
            } else {
                assert forall|i: int| mid <= i < self.events.len() implies !event_le(
                    #[trigger] self.events@[i],
                    event,
                ) by {
                    if mid < i {
                        assert(event_le(self.events@[mid as int], self.events@[i]));
                    }
                }
                hi = mid;
            }
        }
        proof {
            let place = place_of(self.events@, event);
            if lo < place {
                assert(event_le(self.events@[lo as int], event));
            } else if place < lo {
                assert(!event_le(self.events@[place], event));
            }
            lemma_insert_in_order(self.events@, event);
        }
        self.events.insert(lo, event);
    }

    /// Takes an event in from the channel. A `ClearEvents` first drops every
    /// waiting event and then waits itself.
    pub fn receive(&mut self, event: Event)
        requires
            old(self)@.wf(),
        ensures
            final(self)@ == old(self)@.receive(event),
            final(self)@.wf(),
    {
        if let EventData::ClearEvents = event.data {
            self.clear_events();
        }
        self.insert_event(event);
    }

    /// Lets an event take effect: adds its calls to `calls` and brings the
    /// sounding notes up to date.
    fn apply(&mut self, data: EventData, calls: &mut Vec<SynthCall>)
        ensures
            final(self)@.events == old(self)@.events,
            final(self)@.playing_notes == effect(data, old(self)@.playing_notes).1,
            final(calls)@ == old(calls)@ + effect(data, old(self)@.playing_notes).0,
    {
        let ghost before = calls@;
        let ghost playing = self.playing_notes@;
        match data {
            EventData::NoteOn(channel, pitch) => {
                let (key, bend) = pitch.midi_pitch(PITCH_BEND_RANGE);
                calls.push(SynthCall::NoteOn(channel, key, VELOCITY));
                calls.push(SynthCall::PitchBend(channel, bend));
                let found = find_note(&self.playing_notes, channel, key);
                proof {
                    playing.index_of_first_ensures((channel, key));
                }
                if found.is_none() {
                    self.playing_notes.push((channel, key));
                }
                assert(calls@ =~= before + effect(data, playing).0);
            },
            EventData::NoteOff(channel, pitch) => {
                let (key, _bend) = pitch.midi_pitch(PITCH_BEND_RANGE);
                calls.push(SynthCall::NoteOff(channel, key));
                let found = find_note(&self.playing_notes, channel, key);
                proof {
                    playing.index_of_first_ensures((channel, key));
                }
                if let Some(i) = found {
                    self.playing_notes.remove(i);
                }
                assert(calls@ =~= before + effect(data, playing).0);
            },
            EventData::ClearEvents => {
                let mut i: usize = 0;
                while i < self.playing_notes.len()
                    invariant
                        0 <= i <= self.playing_notes.len(),
                        self.playing_notes@ == playing,
                        self.events@ == old(self)@.events,
                        calls@ == before + silence(playing).subrange(0, i as int),
                    decreases self.playing_notes.len() - i,
                {
                    let note = self.playing_notes[i];
                    calls.push(SynthCall::NoteOff(note.0, note.1));
                    assert(silence(playing).subrange(0, i + 1) =~= silence(playing).subrange(
                        0,
                        i as int,
                    ).push(silence(playing)[i as int]));
                    i += 1;
                }
                assert(silence(playing).subrange(0, i as int) =~= silence(playing));
                self.playing_notes.clear();
            },
        }
    }

    /// Plans one output buffer of `buffer_len` interleaved samples that
    /// starts at the output sample `sample`. Every event that is due before
    /// the buffer ends takes effect at its own frame, or at once where it
    /// was due before; `calls` is overwritten with what the synthesizer has
    /// to do, in order, and which stretch of the buffer it has to fill in
    /// between. The events that took effect leave the store. A caller that
    /// hands in the same vector each time spares the audio thread the
    /// allocation.
    pub fn render(&mut self, sample: usize, buffer_len: usize, calls: &mut Vec<SynthCall>)
        requires
            old(self)@.wf(),
            sample + SourceView::frames(buffer_len as int) <= usize::MAX,
        ensures
            final(self)@ == old(self)@.render(sample as int, buffer_len as int).0,
            final(calls)@ == old(self)@.render(sample as int, buffer_len as int).1,
            final(self)@.wf(),
    {
        let ghost before = self@;
        let length = buffer_len / CHANNELS;
        calls.clear();
        let mut generated: usize = 0;
        let mut count: usize = 0;
        while count < self.events.len() && self.events[count].sample < sample + length
            invariant
                0 <= count <= self.events.len(),
                0 <= generated <= length,
                length == SourceView::frames(buffer_len as int),
                sample + length <= usize::MAX,
                self.events@ == before.events,
                walk(before.events, 0, sample as int, length as int, 0, before.playing_notes) == ({
                    let rest = walk(
                        before.events,
                        count as int,
                        sample as int,
                        length as int,
                        generated as int,
                        self.playing_notes@,
                    );
                    Walk { calls: calls@ + rest.calls, ..rest }
                }),
            decreases self.events.len() - count,
        {
            let event = self.events[count];
            let ghost playing = self.playing_notes@;
            let ghost done = calls@;
            let ghost spoken = generated;
            if event.sample > sample + generated {
                let reached = event.sample - sample;
                calls.push(SynthCall::Render(generated * CHANNELS, reached * CHANNELS));
                generated = reached;
            }
            self.apply(event.data, calls);
            count += 1;
            proof {
                let step = walk(
                    before.events,
                    count - 1,
                    sample as int,
                    length as int,
                    spoken as int,
                    playing,
                );
                let rest = walk(
                    before.events,
                    count as int,
                    sample as int,
                    length as int,
                    generated as int,
                    self.playing_notes@,
                );
                let fill = if event.sample > sample + spoken {
                    seq![
                        SynthCall::Render(
                            (spoken * CHANNELS) as usize,
                            ((event.sample - sample) * CHANNELS) as usize,
                        ),
                    ]
                } else {
                    Seq::<SynthCall>::empty()
                };
                assert(step.calls == fill + effect(event.data, playing).0 + rest.calls);
                assert(done + step.calls =~= calls@ + rest.calls);
            }
        }
        drop_front(&mut self.events, count);
        calls.push(SynthCall::Render(generated * CHANNELS, length * CHANNELS));
        proof {
            let done = walk(
                before.events,
                0,
                sample as int,
                length as int,
                0,
                before.playing_notes,
            );
            assert(done.calls =~= calls@.drop_last());
            assert forall|i: int, j: int| 0 <= i < j < self.events@.len() implies event_le(
                #[trigger] self.events@[i],
                #[trigger] self.events@[j],
            ) by {
                assert(event_le(before.events[count + i], before.events[count + j]));
            }
        }
    }

    /// Takes in the events that wait in the queue, at most as many as the
    /// queue held when the call began, and never waits for more.
    pub fn drain_queue(&mut self)
        requires
            old(self)@.wf(),
        ensures
            exists|arrived: Seq<Event>| final(self)@ == old(self)@.receive_all(arrived),
            final(self)@.wf(),
    {
        let ghost before = self@;
        let ghost arrived = Seq::<Event>::empty();
        let pending = queue_len(&self.event_queue);
        let mut taken: usize = 0;
        while taken < pending
            invariant
                taken <= pending,
                self@.wf(),
                self@ == before.receive_all(arrived),
            decreases pending - taken,
        {
            match queue_pop(&self.event_queue) {
                Some(event) => {
                    self.receive(event);
                    proof {
                        assert(arrived.push(event).drop_last() =~= arrived);
                        arrived = arrived.push(event);
                    }
                },
                None => {
                    break ;
                },
            }
            taken += 1;
        }
    }

    /// Plans one output buffer of `buffer_len` interleaved samples that
    /// starts at the output sample `sample`: takes in what waits in the
    /// queue and then plans the buffer as `render` does, into `calls`.
    pub fn output_audio(&mut self, sample: usize, buffer_len: usize, calls: &mut Vec<SynthCall>)
        requires
            old(self)@.wf(),
            sample + SourceView::frames(buffer_len as int) <= usize::MAX,
        ensures
            exists|arrived: Seq<Event>|
                final(self)@ == old(self)@.receive_all(arrived).render(
                    sample as int,
                    buffer_len as int,
                ).0 && final(calls)@ == old(self)@.receive_all(arrived).render(
                    sample as int,
                    buffer_len as int,
                ).1,
            final(self)@.wf(),
    {
        self.drain_queue();
        self.render(sample, buffer_len, calls);
    }
}

/// Putting an event in its place keeps the events in order.
pub proof fn lemma_insert_in_order(events: Seq<Event>, event: Event)
    requires
        in_order(events),
    ensures
        in_order(events.insert(place_of(events, event), event)),
{
    lemma_place_of(events, event);
    let place = place_of(events, event);
    let after = events.insert(place, event);
    assert forall|i: int, j: int| 0 <= i < j < after.len() implies event_le(
        #[trigger] after[i],
        #[trigger] after[j],
    ) by {
        let a = if i < place { events[i] } else if i == place { event } else { events[i - 1] };
        let b = if j < place { events[j] } else if j == place { event } else { events[j - 1] };
        assert(after[i] == a);
        assert(after[j] == b);
        if i == place {
            assert(!event_le(events[j - 1], event));
        }
    }
}

/// In events that stand in order, the place of a new event is the one
/// position that parts them into those not after it and those after it.
proof fn lemma_place_unique(events: Seq<Event>, event: Event, place: int)
    requires
        in_order(events),
        0 <= place <= events.len(),
        forall|i: int| 0 <= i < place ==> event_le(#[trigger] events[i], event),
        forall|i: int| place <= i < events.len() ==> !event_le(#[trigger] events[i], event),
    ensures
        place_of(events, event) == place,
{
    lemma_place_of(events, event);
    let found = place_of(events, event);
    if found < place {
        assert(event_le(events[found], event));
    } else if place < found {
        assert(event_le(events[place], event));
    }
}

/// Two events that are not `ClearEvents` and differ in sample or in
/// sequence number wait in the same order whichever of them arrives first:
/// the order in which the renderer lets events take effect is that of
/// `(sample, sequence)`, not that of arrival.
pub proof fn lemma_arrival_order_is_forgotten(view: SourceView, first: Event, second: Event)
    requires
        view.wf(),
        !(first.data is ClearEvents),
        !(second.data is ClearEvents),
        first.sample != second.sample || first.sequence != second.sequence,
    ensures
        view.receive(first).receive(second) == view.receive(second).receive(first),
        view.receive(first).receive(second).wf(),
{
    let events = view.events;
    lemma_place_of(events, first);
    lemma_place_of(events, second);
    lemma_insert_in_order(events, first);
    lemma_insert_in_order(events, second);
    let first_place = place_of(events, first);
    let second_place = place_of(events, second);
    let with_first = events.insert(first_place, first);
    let with_second = events.insert(second_place, second);
    lemma_insert_in_order(with_first, second);
    if event_le(first, second) {
        lemma_swap_places(events, first, second);
    } else {
        lemma_swap_places(events, second, first);
    }
}

/// For an event `low` that comes before another event `high`, putting in
/// `low` and then `high` gives what putting in `high` and then `low` gives.
proof fn lemma_swap_places(events: Seq<Event>, low: Event, high: Event)
    requires
        in_order(events),
        event_le(low, high),
        !event_le(high, low),
    ensures
        events.insert(place_of(events, low), low).insert(
            place_of(events.insert(place_of(events, low), low), high),
            high,
        ) == events.insert(place_of(events, high), high).insert(
            place_of(events.insert(place_of(events, high), high), low),
            low,
        ),
{
    lemma_place_of(events, low);
    lemma_place_of(events, high);
    let low_place = place_of(events, low);
    let high_place = place_of(events, high);
    if high_place < low_place {
        assert(event_le(events[high_place], low));
        assert(!event_le(events[high_place], high));
    }
    let with_low = events.insert(low_place, low);
    let with_high = events.insert(high_place, high);
    lemma_insert_in_order(events, low);
    lemma_insert_in_order(events, high);
    assert forall|i: int| 0 <= i < high_place + 1 implies event_le(
        #[trigger] with_low[i],
        high,
    ) by {
        if i < low_place {
            assert(with_low[i] == events[i]);
        } else if i > low_place {
            assert(with_low[i] == events[i - 1]);
        }
    }
    assert forall|i: int| high_place + 1 <= i < with_low.len() implies !event_le(
        #[trigger] with_low[i],
        high,
    ) by {
        assert(with_low[i] == events[i - 1]);
    }
    lemma_place_unique(with_low, high, high_place + 1);
    assert forall|i: int| 0 <= i < low_place implies event_le(#[trigger] with_high[i], low) by {
        assert(with_high[i] == events[i]);
    }
    assert forall|i: int| low_place <= i < with_high.len() implies !event_le(
        #[trigger] with_high[i],
        low,
    ) by {
        if i < high_place {
            assert(with_high[i] == events[i]);
        } else if i > high_place {
            assert(with_high[i] == events[i - 1]);
        }
    }
    lemma_place_unique(with_high, low, low_place);
    assert(with_low.insert(high_place + 1, high) =~= with_high.insert(low_place, low));
}

/// The events that take effect in a buffer are the waiting events that are
/// due before the buffer ends, and they are taken from the front of the
/// store, which stands in the order of `(sample, sequence)`: every event
/// that took effect was due, and every event that still waits is not.
pub proof fn lemma_due_events_take_effect(view: SourceView, sample: int, buffer_len: int)
    requires
        view.wf(),
        0 <= sample,
        0 <= buffer_len,
    ensures
        ({
            let frames = SourceView::frames(buffer_len);
            let done = walk(view.events, 0, sample, frames, 0, view.playing_notes);
            &&& 0 <= done.consumed <= view.events.len()
            &&& forall|i: int|
                0 <= i < done.consumed ==> (#[trigger] view.events[i]).sample < sample + frames
            &&& forall|i: int|
                done.consumed <= i < view.events.len() ==> (#[trigger] view.events[i]).sample
                    >= sample + frames
            &&& view.render(sample, buffer_len).0.wf()
        }),
{
    let frames = SourceView::frames(buffer_len);
    lemma_walk_due(view.events, 0, sample, frames, 0, view.playing_notes);
    let done = walk(view.events, 0, sample, frames, 0, view.playing_notes);
    let left = view.events.subrange(done.consumed, view.events.len() as int);
    assert forall|i: int, j: int| 0 <= i < j < left.len() implies event_le(
        #[trigger] left[i],
        #[trigger] left[j],
    ) by {
        assert(event_le(view.events[done.consumed + i], view.events[done.consumed + j]));
    }
}

/// The walk stops at the first event that is not due, and in events that
/// stand in order none behind that one is due either.
proof fn lemma_walk_due(
    events: Seq<Event>,
    at: int,
    sample: int,
    frames: int,
    generated: int,
    playing: Seq<(u32, u32)>,
)
    requires
        in_order(events),
        0 <= at <= events.len(),
    ensures
        ({
            let done = walk(events, at, sample, frames, generated, playing);
            &&& at <= done.consumed <= events.len()
            &&& forall|i: int| at <= i < done.consumed ==> (#[trigger] events[i]).sample < sample + frames
            &&& forall|i: int|
                done.consumed <= i < events.len() ==> (#[trigger] events[i]).sample >= sample + frames
        }),
    decreases events.len() - at,
{
    if at < events.len() && events[at].sample < sample + frames {
        let event = events[at];
        let reached = if event.sample > sample + generated {
            event.sample - sample
        } else {
            generated
        };
        lemma_walk_due(events, at + 1, sample, frames, reached, effect(event.data, playing).1);
    } else if at < events.len() {
        assert forall|i: int| at <= i < events.len() implies (#[trigger] events[i]).sample >= sample
            + frames by {
            if at < i {
                assert(event_le(events[at], events[i]));
            }
        }
    }
}

/// `ClearEvents` may be sent again without harm: a renderer that receives
/// two of them in a row, as two pauses send them, ends the next buffer in
/// the state of a renderer that received one. In that state nothing waits
/// and nothing sounds.
pub proof fn lemma_clear_events_twice(
    view: SourceView,
    first: Event,
    second: Event,
    sample: int,
    buffer_len: int,
)
    requires
        view.wf(),
        first.data is ClearEvents,
        second.data is ClearEvents,
        0 <= sample,
        first.sample < sample + SourceView::frames(buffer_len),
        second.sample < sample + SourceView::frames(buffer_len),
    ensures
        view.receive(first).receive(second).render(sample, buffer_len).0 == view.receive(
            first,
        ).render(sample, buffer_len).0,
        view.receive(first).render(sample, buffer_len).0 == (SourceView {
            events: Seq::empty(),
            playing_notes: Seq::empty(),
        }),
{
    let frames = SourceView::frames(buffer_len);
    let once = view.receive(first);
    let twice = once.receive(second);
    assert(once.events =~= seq![first]);
    assert(twice.events =~= seq![second]);
    assert(twice.playing_notes == once.playing_notes);
    lemma_walk_one_clear(first, sample, frames, once.playing_notes);
    lemma_walk_one_clear(second, sample, frames, once.playing_notes);
    assert(once.events.subrange(1, 1) =~= Seq::<Event>::empty());
    assert(twice.events.subrange(1, 1) =~= Seq::<Event>::empty());
}

/// A lone `ClearEvents` that is due takes effect and leaves no note
/// sounding.
proof fn lemma_walk_one_clear(event: Event, sample: int, frames: int, playing: Seq<(u32, u32)>)
    requires
        event.data is ClearEvents,
        event.sample < sample + frames,
    ensures
        walk(seq![event], 0, sample, frames, 0, playing).consumed == 1,
        walk(seq![event], 0, sample, frames, 0, playing).playing_notes == Seq::<(u32, u32)>::empty(),
{
    let events = seq![event];
    assert(events[0] == event);
    let reached = if event.sample > sample {
        event.sample - sample
    } else {
        0
    };
    let rest = walk(events, 1, sample, frames, reached, Seq::<(u32, u32)>::empty());
    assert(rest.consumed == 1);
    assert(effect(event.data, playing).1 == Seq::<(u32, u32)>::empty());
}

/// Where the filled part of the buffer ends once the calls are made, given
/// that it ended at `from` before: each `Render` call has to start where
/// the filled part ends and moves that end on. `None` where a `Render` call
/// leaves a gap, fills a stretch again, or runs backwards.
pub open spec fn filled_to(calls: Seq<SynthCall>, from: int) -> Option<int>
    decreases calls.len(),
{
    if calls.len() == 0 {
        Some(from)
    } else {
        let before = filled_to(calls.drop_last(), from);
        match calls.last() {
            SynthCall::Render(start, end) => if before == Some(start as int) && start <= end {
                Some(end as int)
            } else {
                None
            },
            _ => before,
        }
    }
}

/// Calls made one after the other fill the buffer on from where the first
/// ones left it.
proof fn lemma_filled_concat(first: Seq<SynthCall>, second: Seq<SynthCall>, from: int)
    ensures
        filled_to(first + second, from) == match filled_to(first, from) {
            Some(middle) => filled_to(second, middle),
            None => None,
        },
    decreases second.len(),
{
    if second.len() == 0 {
        assert(first + second =~= first);
    } else {
        assert((first + second).drop_last() =~= first + second.drop_last());
        assert((first + second).last() == second.last());
        lemma_filled_concat(first, second.drop_last(), from);
        if filled_to(first, from) is None {
            lemma_filled_from_none(second, first, from);
        }
    }
}

/// Once a gap is left, no later call mends it.
proof fn lemma_filled_from_none(second: Seq<SynthCall>, first: Seq<SynthCall>, from: int)
    requires
        filled_to(first, from) is None,
    ensures
        filled_to(first + second, from) is None,
    decreases second.len(),
{
    if second.len() == 0 {
        assert(first + second =~= first);
    } else {
        assert((first + second).drop_last() =~= first + second.drop_last());
        lemma_filled_from_none(second.drop_last(), first, from);
    }
}

/// Calls that are not `Render` leave the buffer as it is.
proof fn lemma_filled_unchanged(calls: Seq<SynthCall>, from: int)
    requires
        forall|i: int| 0 <= i < calls.len() ==> !(#[trigger] calls[i] is Render),
    ensures
        filled_to(calls, from) == Some(from),
    decreases calls.len(),
{
    if calls.len() > 0 {
        assert(!(calls[calls.len() - 1] is Render));
        lemma_filled_unchanged(calls.drop_last(), from);
    }
}

/// The `Render` calls of a walk fill the buffer without a gap from the
/// frames spoken for at its start to the frames spoken for at its end.
proof fn lemma_walk_fills(
    events: Seq<Event>,
    at: int,
    sample: int,
    frames: int,
    generated: int,
    playing: Seq<(u32, u32)>,
)
    requires
        0 <= at <= events.len(),
        0 <= generated <= frames,
        0 <= sample,
        frames * CHANNELS <= usize::MAX,
    ensures
        ({
            let done = walk(events, at, sample, frames, generated, playing);
            &&& generated <= done.generated <= frames
            &&& filled_to(done.calls, generated * CHANNELS) == Some(done.generated * CHANNELS)
        }),
    decreases events.len() - at,
{
    if at < events.len() && events[at].sample < sample + frames {
        let event = events[at];
        let ahead = event.sample > sample + generated;
        let reached = if ahead {
            event.sample - sample
        } else {
            generated
        };
        let fill = if ahead {
            seq![SynthCall::Render((generated * CHANNELS) as usize, (reached * CHANNELS) as usize)]
        } else {
            Seq::<SynthCall>::empty()
        };
        let (calls, sounding) = effect(event.data, playing);
        let rest = walk(events, at + 1, sample, frames, reached, sounding);
        lemma_walk_fills(events, at + 1, sample, frames, reached, sounding);
        assert(filled_to(fill, generated * CHANNELS) == Some(reached * CHANNELS)) by {
            if ahead {
                assert(fill.drop_last() =~= Seq::<SynthCall>::empty());
                assert(filled_to(fill.drop_last(), generated * CHANNELS) == Some(
                    generated * CHANNELS,
                ));
                assert(0 <= generated * CHANNELS <= reached * CHANNELS <= usize::MAX);
                assert(fill.last() == SynthCall::Render(
                    (generated * CHANNELS) as usize,
                    (reached * CHANNELS) as usize,
                ));
            }
        }
        lemma_filled_unchanged(calls, reached * CHANNELS);
        lemma_filled_concat(fill, calls, generated * CHANNELS);
        lemma_filled_concat(fill + calls, rest.calls, generated * CHANNELS);
    }
}

/// Segmented rendering: the `Render` calls for a buffer fill it from its
/// first frame to its last, each stretch once, in rising order and without
/// a gap, whatever events take effect in between.
pub proof fn lemma_buffer_filled_once(view: SourceView, sample: int, buffer_len: int)
    requires
        0 <= sample,
        0 <= buffer_len <= usize::MAX,
    ensures
        filled_to(view.render(sample, buffer_len).1, 0) == Some(
            SourceView::frames(buffer_len) * CHANNELS,
        ),
{
    let frames = SourceView::frames(buffer_len);
    lemma_walk_fills(view.events, 0, sample, frames, 0, view.playing_notes);
    let done = walk(view.events, 0, sample, frames, 0, view.playing_notes);
    let calls = view.render(sample, buffer_len).1;
    assert(calls.drop_last() =~= done.calls);
}

} // verus!
