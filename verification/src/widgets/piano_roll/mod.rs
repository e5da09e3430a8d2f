//! The piano roll's editing logic: what a move or a click of the mouse does
//! to the notes.

pub mod state;

use crate::audio::SynthCommand;
use crate::sequence::SequenceChange;
use crate::widgets::piano_roll::state::PianoRollSelfMessage;
use vstd::prelude::*;

verus! {

/// What the piano roll asks for when it handles an event: a change of its
/// own state, a command to the transport, or a change to the notes.
#[derive(Clone, Copy, Debug)]
pub enum PianoRollMessage {
    SelfMessage(PianoRollSelfMessage),
    SynthCommand(SynthCommand),
    SequenceChange(SequenceChange),
}

} // verus!
