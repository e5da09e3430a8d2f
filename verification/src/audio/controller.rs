//! Timestamped events and the channel that carries them from the transport
//! to the renderer.

use crate::pitch::Pitch;
use vstd::prelude::*;

verus! {

/// What an event asks of the synthesizer.
#[derive(Clone, Copy, Debug, PartialEq, Eq, Structural)]
pub enum EventData {
    /// Start a note on a channel.
    NoteOn(u32, Pitch),
    /// End a note on a channel.
    NoteOff(u32, Pitch),
    /// Drop every event still waiting and silence every sounding note.
    ClearEvents,
}

/// An event for the renderer, due at the output sample `sample`. Events are
/// ordered by `(sample, sequence)`: the sequence number settles the order of
/// events that share a sample.
#[derive(Clone, Copy, Debug, PartialEq, Eq, Structural)]
pub struct Event {
    pub sample: usize,
    pub sequence: usize,
    pub data: EventData,
}

/// The sending end of an event channel.
pub trait Controller {
    /// Every event sent so far and not yet taken out, oldest first.
    spec fn sent(&self) -> Seq<Event>;

    /// Sends one event; it never waits for the receiver.
    fn send_event(&mut self, event: Event)
        ensures
            final(self).sent() == old(self).sent().push(event),
    ;
}

/// A controller that keeps the events it is sent, in order, until they are
/// taken out.
pub struct EventLog {
    events: Vec<Event>,
}

impl Controller for EventLog {
    closed spec fn sent(&self) -> Seq<Event> {
        self.events@
    }

    fn send_event(&mut self, event: Event) {
        self.events.push(event);
    }
}

impl EventLog {
    /// A log without events.
    pub fn new() -> (log: EventLog)
        ensures
            log.sent() == Seq::<Event>::empty(),
    {
        EventLog { events: Vec::new() }
    }

    /// The events that wait in the log, oldest first.
    pub fn events(&self) -> (events: &Vec<Event>)
        ensures
            events@ == self.sent(),
    {
        &self.events
    }

    /// Takes every waiting event out of the log, oldest first.
    pub fn take(&mut self) -> (events: Vec<Event>)
        ensures
            events@ == old(self).sent(),
            final(self).sent() == Seq::<Event>::empty(),
    {
        let mut taken: Vec<Event> = Vec::new();
        std::mem::swap(&mut taken, &mut self.events);
        taken
    }
}

} // verus!
