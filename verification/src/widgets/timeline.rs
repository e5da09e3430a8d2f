//! The timeline's editing logic: seeking and spanning the loop region with
//! the mouse.

use crate::audio::SynthCommand;
use crate::widgets::piano_roll::state::Modifiers;
use crate::widgets::tick_grid::{quantized, SimpleGrid};
use vstd::prelude::*;

verus! {

/// What the mouse is doing on the timeline.
#[derive(Clone, Copy, Debug, PartialEq, Eq, Structural)]
pub enum Action {
    /// Nothing.
    Idle,
    /// Moving the cursor.
    Seeking,
    /// Spanning the loop region from a tick.
    Selecting(i32),
}

/// What the mouse does on the timeline.
#[derive(Clone, Copy, Debug, PartialEq, Eq, Structural)]
pub enum TimelineInput {
    Moved,
    LeftPressed,
    LeftReleased,
}

/// What the timeline remembers between events.
#[derive(Clone, Copy, Debug)]
pub struct TimelineState {
    pub action: Action,
    pub modifiers: Modifiers,
}

/// The tick that the mouse points at: snapped to the grid unless alt is
/// held, and not below zero.
pub open spec fn pointed_tick(tick: int, alt: bool, spacing: int) -> int {
    let snapped = if alt {
        tick
    } else {
        quantized(tick, spacing)
    };
    if snapped < 0 {
        0
    } else {
        snapped
    }
}

impl TimelineState {
    /// A timeline at rest.
    pub fn new() -> (state: TimelineState)
        ensures
            state.action == Action::Idle,
            state.modifiers == (Modifiers { shift: false, control: false, alt: false, logo: false }),
    {
        TimelineState { action: Action::Idle, modifiers: Modifiers::default() }
    }

    /// The tick that the mouse points at.
    pub fn cursor_tick(&self, tick: i32, grid: &SimpleGrid) -> (pointed: i32)
        requires
            !self.modifiers.alt ==> tick + grid.spacing() / 2 <= i32::MAX,
        ensures
            pointed == pointed_tick(tick as int, self.modifiers.alt, grid.spacing()),
    {
        let mut cursor_tick = tick;
        if !self.modifiers.alt {
            cursor_tick = grid.quantize_tick(cursor_tick);
        }
        if cursor_tick < 0 {
            0
        } else {
            cursor_tick
        }
    }

    /// The action after the mouse has done something at `cursor_tick`,
    /// inside the timeline or not: a press inside starts seeking, or
    /// spanning the loop with control held; a release ends either.
    pub open spec fn action_after(self, input: TimelineInput, inside: bool, cursor_tick: i32) -> Action {
        match input {
            TimelineInput::Moved => self.action,
            TimelineInput::LeftPressed => if !inside {
                self.action
            } else if self.modifiers.control {
                Action::Selecting(cursor_tick)
            } else {
                Action::Seeking
            },
            TimelineInput::LeftReleased => Action::Idle,
        }
    }

    /// The command that follows from what the mouse has done: while seeking
    /// the cursor follows the mouse, while spanning the loop the loop runs
    /// from where the span began to the mouse.
    pub open spec fn command_for(self, input: TimelineInput, inside: bool, cursor_tick: i32) -> Option<
        SynthCommand,
    > {
        match self.action_after(input, inside, cursor_tick) {
            Action::Idle => None,
            Action::Seeking => if input == TimelineInput::Moved || inside {
                Some(SynthCommand::Seek(cursor_tick))
            } else {
                None
            },
            Action::Selecting(start_tick) => if input == TimelineInput::Moved || inside {
                Some(SynthCommand::spec_loop_between(start_tick, cursor_tick))
            } else {
                None
            },
        }
    }

    /// Whether the timeline takes what the mouse has done for its own:
    /// moves while an action is under way, presses inside it, and releases.
    pub open spec fn captures(self, input: TimelineInput, inside: bool) -> bool {
        match input {
            TimelineInput::Moved => self.action != Action::Idle,
            TimelineInput::LeftPressed => inside,
            TimelineInput::LeftReleased => true,
        }
    }

    /// Handles what the mouse has done at `cursor_tick`: gives the command
    /// to send, if any, and whether the event is the timeline's own.
    pub fn on_mouse(&mut self, input: TimelineInput, inside: bool, cursor_tick: i32) -> (answer: (
        Option<SynthCommand>,
        bool,
    ))
        ensures
            final(self).action == old(self).action_after(input, inside, cursor_tick),
            final(self).modifiers == old(self).modifiers,
            answer.0 == old(self).command_for(input, inside, cursor_tick),
            answer.1 == old(self).captures(input, inside),
    {
        match input {
            TimelineInput::Moved => match self.action {
                Action::Idle => (None, false),
                Action::Seeking => (Some(SynthCommand::Seek(cursor_tick)), true),
                Action::Selecting(start_tick) => (
                    Some(SynthCommand::loop_between(start_tick, cursor_tick)),
                    true,
                ),
            },
            TimelineInput::LeftPressed => {
                if inside {
                    if self.modifiers.control {
                        self.action = Action::Selecting(cursor_tick);
                        (Some(SynthCommand::loop_between(cursor_tick, cursor_tick)), true)
                    } else {
                        self.action = Action::Seeking;
                        (Some(SynthCommand::Seek(cursor_tick)), true)
                    }
                } else {
                    (None, false)
                }
            },
            TimelineInput::LeftReleased => {
                self.action = Action::Idle;
                (None, true)
            },
        }
    }
}

} // verus!
