//! The audio side: events, the transport that emits them and the plan by
//! which they are rendered.

pub mod controller;
pub mod mixer;
pub mod player;
pub mod redoxsynth;

use crate::audio::controller::{Controller, Event};
use crate::audio::player::{Player, PlayerView};
use crate::pitch::Pitch;
use crate::sequence::{Note, NoteId, Sequence};
use vstd::prelude::*;

verus! {

/// A command to the transport.
#[derive(Clone, Copy, Debug)]
pub enum SynthCommand {
    /// Start playback where the cursor stands.
    Play,
    /// Stop playback and leave the cursor where it stands.
    Pause,
    /// Stop playback and take the cursor back to where playback starts from.
    Stop,
    /// Move the cursor, and the place where playback starts from, to a tick.
    Seek(i32),
    /// Set or clear the loop region, in ticks.
    SetLoop(Option<(i32, i32)>),
    /// Audition a pitch.
    StartPreview(Pitch),
    /// End the audition.
    StopPreview,
}

impl SynthCommand {
    /// The command that loops between two ticks, whichever of them comes
    /// first, or that clears the loop where the two are one.
    pub open spec fn spec_loop_between(start_tick: i32, end_tick: i32) -> SynthCommand {
        if start_tick == end_tick {
            SynthCommand::SetLoop(None)
        } else if start_tick < end_tick {
            SynthCommand::SetLoop(Some((start_tick, end_tick)))
        } else {
            SynthCommand::SetLoop(Some((end_tick, start_tick)))
        }
    }

    /// The command that loops between two ticks, whichever of them comes
    /// first, or that clears the loop where the two are one.
    pub fn loop_between(start_tick: i32, end_tick: i32) -> (command: SynthCommand)
        ensures
            command == SynthCommand::spec_loop_between(start_tick, end_tick),
    {
        if start_tick == end_tick {
            SynthCommand::SetLoop(None)
        } else if start_tick < end_tick {
            SynthCommand::SetLoop(Some((start_tick, end_tick)))
        } else {
            SynthCommand::SetLoop(Some((end_tick, start_tick)))
        }
    }
}

/// What the transport shows to its observers: whether it plays, where the
/// cursor stands, where playback starts from, and the loop region, all in
/// ticks.
#[derive(Clone, Copy, Debug)]
pub struct PlaybackState {
    pub playback_cursor: i32,
    pub playback_start_cursor: i32,
    pub playing: bool,
    pub looping: Option<(i32, i32)>,
}

impl PartialEq for PlaybackState {
    fn eq(&self, other: &Self) -> (same: bool) {
        let same_loop = match (self.looping, other.looping) {
            (Some(a), Some(b)) => a.0 == b.0 && a.1 == b.1,
            (None, None) => true,
            _ => false,
        };
        self.playback_cursor == other.playback_cursor && self.playback_start_cursor
            == other.playback_start_cursor && self.playing == other.playing && same_loop
    }
}

impl vstd::std_specs::cmp::PartialEqSpecImpl for PlaybackState {
    open spec fn obeys_eq_spec() -> bool {
        true
    }

    open spec fn eq_spec(&self, other: &Self) -> bool {
        *self == *other
    }
}

impl PlaybackState {
    /// The snapshot of a stopped transport at tick zero, without a loop.
    pub open spec fn initial() -> PlaybackState {
        PlaybackState {
            playback_cursor: 0,
            playback_start_cursor: 0,
            playing: false,
            looping: None,
        }
    }

    /// A stopped transport at tick zero, without a loop.
    pub fn new() -> (state: PlaybackState)
        ensures
            state == PlaybackState::initial(),
    {
        PlaybackState { playback_cursor: 0, playback_start_cursor: 0, playing: false, looping: None }
    }
}

/// The control side as plain values: the transport, the snapshot that
/// observers are shown, the snapshot that they were sent last, the tick that
/// `Stop` returns to, and the output sample up to which the audio side has
/// played.
pub struct SynthView {
    pub player: PlayerView,
    pub playback_state: PlaybackState,
    pub last_playback_state: PlaybackState,
    pub start_cursor: i32,
    pub sample_pos: int,
}

impl SynthView {
    /// The transport is well formed, and the tick that `Stop` returns to is
    /// one that the transport can be moved to.
    pub open spec fn wf(self) -> bool {
        &&& self.player.wf()
        &&& 0 <= self.start_cursor
        &&& self.start_cursor * self.player.samples_per_tick <= usize::MAX
        &&& 0 <= self.sample_pos
    }

    /// What a command does: the state afterwards and the events sent.
    pub open spec fn command(self, notes: Map<NoteId, Note>, command: SynthCommand) -> (
        SynthView,
        Seq<Event>,
    ) {
        match command {
            SynthCommand::Play => {
                let (player, events) = self.player.play(notes, self.sample_pos);
                (
                    SynthView {
                        player,
                        playback_state: PlaybackState { playing: true, ..self.playback_state },
                        ..self
                    },
                    events,
                )
            },
            SynthCommand::Stop => {
                let (paused, clear) = self.player.pause();
                let (player, events) = paused.seek(notes, self.sample_pos, self.start_cursor as int);
                (
                    SynthView {
                        player,
                        playback_state: PlaybackState { playing: false, ..self.playback_state },
                        ..self
                    },
                    clear + events,
                )
            },
            SynthCommand::Pause => {
                let (player, events) = self.player.pause();
                (
                    SynthView {
                        player,
                        playback_state: PlaybackState { playing: false, ..self.playback_state },
                        ..self
                    },
                    events,
                )
            },
            SynthCommand::Seek(tick) => {
                let (player, events) = self.player.seek(notes, self.sample_pos, tick as int);
                (
                    SynthView {
                        player,
                        start_cursor: tick,
                        playback_state: PlaybackState {
                            playback_start_cursor: tick,
                            ..self.playback_state
                        },
                        ..self
                    },
                    events,
                )
            },
            SynthCommand::SetLoop(looping) => (
                SynthView {
                    player: PlayerView { looping: self.player.loop_region(looping), ..self.player },
                    playback_state: PlaybackState { looping, ..self.playback_state },
                    ..self
                },
                Seq::empty(),
            ),
            SynthCommand::StartPreview(pitch) => {
                let (player, events) = self.player.play_preview(pitch);
                (SynthView { player, ..self }, events)
            },
            SynthCommand::StopPreview => {
                let (player, events) = self.player.stop_preview();
                (SynthView { player, ..self }, events)
            },
        }
    }

    /// Every number that the command comes by fits the machine word, and
    /// its ticks can be reached.
    pub open spec fn command_fits(self, notes: Map<NoteId, Note>, command: SynthCommand) -> bool {
        match command {
            SynthCommand::Play => self.player.play_fits(notes, self.sample_pos),
            SynthCommand::Stop => self.player.sequence + 1 <= usize::MAX,
            SynthCommand::Pause => self.player.sequence + 1 <= usize::MAX,
            SynthCommand::Seek(tick) => self.player.seek_fits(notes, self.sample_pos, tick as int),
            SynthCommand::SetLoop(looping) => looping matches Some((start, end)) ==> 0 <= start
                <= end && end * self.player.samples_per_tick <= usize::MAX,
            SynthCommand::StartPreview(_) => self.player.sequence + 2 <= usize::MAX,
            SynthCommand::StopPreview => self.player.sequence + 1 <= usize::MAX,
        }
    }

    /// The snapshot with the cursor brought up to date from the transport.
    pub open spec fn snapshot(self) -> PlaybackState {
        PlaybackState {
            playback_cursor: (self.player.playing_frame / self.player.samples_per_tick) as i32,
            ..self.playback_state
        }
    }
}

/// The control side of the sequencer: it takes commands, drives the
/// transport as the audio side reports played samples, and says when the
/// snapshot for observers has changed.
pub struct Synth<C: Controller> {
    player: Player<C>,
    playback_state: PlaybackState,
    last_playback_state: PlaybackState,
    start_cursor: i32,
    sample_pos: usize,
}

impl<C: Controller> View for Synth<C> {
    type V = SynthView;

    closed spec fn view(&self) -> SynthView {
        SynthView {
            player: self.player@,
            playback_state: self.playback_state,
            last_playback_state: self.last_playback_state,
            start_cursor: self.start_cursor,
            sample_pos: self.sample_pos as int,
        }
    }
}

impl<C: Controller> Synth<C> {
    /// The controller of the transport as it stands.
    pub closed spec fn spec_controller(&self) -> C {
        self.player.spec_controller()
    }

    /// The control side around a transport, before any sample is played.
    pub fn new(player: Player<C>) -> (synth: Synth<C>)
        requires
            player@.wf(),
        ensures
            synth@ == (SynthView {
                player: player@,
                playback_state: PlaybackState::initial(),
                last_playback_state: PlaybackState::initial(),
                start_cursor: 0,
                sample_pos: 0,
            }),
            synth@.wf(),
            synth.spec_controller() == player.spec_controller(),
    {
        Synth {
            player,
            playback_state: PlaybackState::new(),
            last_playback_state: PlaybackState::new(),
            start_cursor: 0,
            sample_pos: 0,
        }
    }

    /// Carries out one command.
    pub fn command(&mut self, notes: &Sequence, command: SynthCommand)
        requires
            old(self)@.wf(),
            notes.wf(),
            old(self)@.command_fits(notes@, command),
        ensures
            final(self)@ == old(self)@.command(notes@, command).0,
            final(self)@.wf(),
            final(self).spec_controller().sent() == old(self).spec_controller().sent() + old(
                self,
            )@.command(notes@, command).1,
    {
        let ghost sent = self.player.spec_controller().sent();
        match command {
            SynthCommand::Play => {
                self.player.play(notes, self.sample_pos);
                self.playback_state.playing = true;
            },
            SynthCommand::Stop => {
                self.player.pause();
                self.player.seek(notes, self.sample_pos, self.start_cursor);
                self.playback_state.playing = false;
                assert(self.player.spec_controller().sent() =~= sent + old(self)@.command(
                    notes@,
                    command,
                ).1);
            },
            SynthCommand::Pause => {
                self.player.pause();
                self.playback_state.playing = false;
            },
            SynthCommand::Seek(tick) => {
                self.player.seek(notes, self.sample_pos, tick);
                self.start_cursor = tick;
                self.playback_state.playback_start_cursor = tick;
            },
            SynthCommand::SetLoop(looping) => {
                self.player.set_loop(looping);
                self.playback_state.looping = looping;
                assert(self.player.spec_controller().sent() =~= sent + Seq::<Event>::empty());
            },
            SynthCommand::StartPreview(pitch) => {
                self.player.play_preview(pitch);
            },
            SynthCommand::StopPreview => {
                self.player.stop_preview();
            },
        }
    }

    /// Brings the snapshot up to date and hands it out if it differs from
    /// the one that was handed out last.
    pub fn status(&mut self) -> (update: Option<PlaybackState>)
        requires
            old(self)@.wf(),
            old(self)@.player.playing_frame / old(self)@.player.samples_per_tick <= i32::MAX,
        ensures
            final(self)@ == (SynthView {
                playback_state: old(self)@.snapshot(),
                last_playback_state: old(self)@.snapshot(),
                ..old(self)@
            }),
            update == (if old(self)@.snapshot() == old(self)@.last_playback_state {
                None
            } else {
                Some(old(self)@.snapshot())
            }),
            final(self).spec_controller() == old(self).spec_controller(),
    {
        self.playback_state.playback_cursor = self.player.get_position();
        if self.playback_state != self.last_playback_state {
            self.last_playback_state = self.playback_state;
            Some(self.playback_state)
        } else {
            None
        }
    }

    /// The audio side has played `samples` more samples.
    pub fn process(&mut self, notes: &Sequence, samples: usize)
        requires
            old(self)@.wf(),
            notes.wf(),
            old(self)@.player.process_fits(notes@, samples as int),
            old(self)@.sample_pos + samples <= usize::MAX,
        ensures
            final(self)@ == (SynthView {
                player: old(self)@.player.process(notes@, samples as int).0,
                sample_pos: old(self)@.sample_pos + samples,
                ..old(self)@
            }),
            final(self)@.wf(),
            final(self).spec_controller().sent() == old(self).spec_controller().sent() + old(
                self,
            )@.player.process(notes@, samples as int).1,
    {
        self.player.process(notes, samples);
        self.sample_pos = self.sample_pos + samples;
    }

    /// The output sample up to which the audio side has played.
    pub fn sample_pos(&self) -> (sample: usize)
        ensures
            sample == self@.sample_pos,
    {
        self.sample_pos
    }

    /// The transport.
    pub fn player(&self) -> (player: &Player<C>)
        ensures
            player@ == self@.player,
            player.spec_controller() == self.spec_controller(),
    {
        &self.player
    }

    /// The transport's controller, to change it in place.
    pub fn controller_mut(&mut self) -> (controller: &mut C)
        ensures
            *controller == old(self).spec_controller(),
            final(self)@ == old(self)@,
            final(self).spec_controller() == *final(controller),
    {
        self.player.controller_mut()
    }
}

} // verus!
