//! A tick-based note sequencer: the note store with its range index, the
//! transport that turns played time into timestamped note events, the
//! sample-accurate plan by which a synthesizer renders those events, and
//! the editing logic of the piano roll that changes the notes.

pub mod audio;
pub mod math;
pub mod pitch;
pub mod sequence;
pub mod widgets;
