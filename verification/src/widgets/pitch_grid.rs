//! The grid of the pitch axis: equal divisions of the octave.

use crate::math::{
    ceil_div, ceil_div_exec, floor_div, floor_div_exec, round_half_away, round_half_away_exec,
};
use crate::pitch::Pitch;
use vstd::prelude::*;

verus! {

/// How a line of the pitch grid is drawn: as the tonic, as another white
/// key or as a black key.
#[derive(Clone, Copy, Debug, PartialEq, Eq, Structural)]
pub enum LineType {
    Tonic,
    White,
    Black,
}

/// A line of the grid at `pitch`.
#[derive(Clone, Copy, Debug, PartialEq, Eq, Structural)]
pub struct GridLine {
    pub pitch: Pitch,
    pub line_type: LineType,
}

/// A grid on the pitch axis: it has lines to draw and pitches to snap to.
pub trait PitchGrid {
    /// The grid can list its lines from `start` up to `end`.
    spec fn has_lines(&self, start: Pitch, end: Pitch) -> bool;

    /// `lines` are the lines of the grid from `start` up to and including
    /// `end`, in rising order.
    spec fn lines_are(&self, start: Pitch, end: Pitch, lines: Seq<GridLine>) -> bool;

    /// The grid can snap the pitch.
    spec fn snaps(&self, pitch: Pitch) -> bool;

    /// `snapped` is the pitch snapped to the grid.
    spec fn snaps_to(&self, pitch: Pitch, snapped: Pitch) -> bool;

    /// The lines of the grid from `start` up to and including `end`.
    fn get_grid_lines(&self, start: Pitch, end: Pitch) -> (lines: Vec<GridLine>)
        requires
            self.has_lines(start, end),
        ensures
            self.lines_are(start, end, lines@),
    ;

    /// Snaps a pitch to the grid.
    fn quantize_pitch(&self, pitch: Pitch) -> (snapped: Pitch)
        requires
            self.snaps(pitch),
        ensures
            self.snaps_to(pitch, snapped),
    ;
}

/// An equal-tempered grid: `tones_per_octave` equal steps to the octave,
/// coloured by a repeating pattern that starts at concert A.
pub struct TetGrid {
    pub tones_per_octave: i32,
    pub pattern: Vec<LineType>,
}

impl TetGrid {
    /// A grid of `tones_per_octave` steps to the octave with the given
    /// colour pattern.
    pub fn new(tones_per_octave: i32, pattern: Vec<LineType>) -> (grid: TetGrid)
        ensures
            grid.tones_per_octave == tones_per_octave,
            grid.pattern == pattern,
    {
        TetGrid { tones_per_octave, pattern }
    }

    /// The number of the first grid line at or above `pitch`, counted in
    /// steps from concert A.
    pub open spec fn step_at_or_above(&self, pitch: Pitch) -> int {
        ceil_div(pitch.spec_numer() * self.tones_per_octave, pitch.spec_denom())
    }

    /// The number of the last grid line at or below `pitch`.
    pub open spec fn step_at_or_below(&self, pitch: Pitch) -> int {
        floor_div(pitch.spec_numer() * self.tones_per_octave, pitch.spec_denom())
    }

    /// The number of the grid line nearest to `pitch`; half way between two
    /// lines, the one further from concert A.
    pub open spec fn nearest_step(&self, pitch: Pitch) -> int {
        round_half_away(pitch.spec_numer() * self.tones_per_octave, pitch.spec_denom())
    }

    /// The colour of the `i`-th line on from the line with the number
    /// `first`: the pattern repeats, and the lines that are whole octaves
    /// from concert A take its first colour.
    pub open spec fn colour_at(&self, first: int, i: int) -> LineType {
        self.pattern@[(i + first % (self.tones_per_octave as int)) % (self.pattern.len() as int)]
    }

    /// Snaps a pitch to the nearest line of the grid.
    pub fn quantize_pitch(&self, pitch: Pitch) -> (snapped: Pitch)
        requires
            self.tones_per_octave > 0,
            i32::MIN < self.nearest_step(pitch) <= i32::MAX,
        ensures
            snapped.is_ratio(self.nearest_step(pitch), self.tones_per_octave as int),
    {
        let tones: i128 = self.tones_per_octave as i128;
        let numer: i128 = pitch.numer() as i128;
        assert(-0x8000_0000 * 0x8000_0000 <= numer * tones <= 0x8000_0000 * 0x8000_0000)
            by (nonlinear_arith)
            requires
                -0x8000_0000 <= numer <= 0x8000_0000,
                0 < tones <= 0x8000_0000,
        ;
        let step = round_half_away_exec(numer * tones, pitch.denom() as i128);
        Pitch::new(step as i32, self.tones_per_octave)
    }

    /// The lines of the grid from `start` up to and including `end`, in
    /// rising order.
    pub fn get_grid_lines(&self, start: Pitch, end: Pitch) -> (lines: Vec<GridLine>)
        requires
            self.tones_per_octave > 0,
            self.pattern.len() > 0,
            i32::MIN < self.step_at_or_above(start),
            self.step_at_or_below(end) <= i32::MAX,
        ensures
            lines.len() == (if self.step_at_or_below(end) < self.step_at_or_above(start) {
                0
            } else {
                self.step_at_or_below(end) - self.step_at_or_above(start) + 1
            }),
            forall|i: int|
                0 <= i < lines.len() ==> (#[trigger] lines[i]).pitch.is_ratio(
                    self.step_at_or_above(start) + i,
                    self.tones_per_octave as int,
                ) && lines[i].line_type == self.colour_at(self.step_at_or_above(start), i),
    {
        let tones: i128 = self.tones_per_octave as i128;
        let start_numer: i128 = start.numer() as i128;
        let end_numer: i128 = end.numer() as i128;
        assert(-0x8000_0000 * 0x8000_0000 <= start_numer * tones <= 0x8000_0000 * 0x8000_0000)
            by (nonlinear_arith)
            requires
                -0x8000_0000 <= start_numer <= 0x8000_0000,
                0 < tones <= 0x8000_0000,
        ;
        assert(-0x8000_0000 * 0x8000_0000 <= end_numer * tones <= 0x8000_0000 * 0x8000_0000)
            by (nonlinear_arith)
            requires
                -0x8000_0000 <= end_numer <= 0x8000_0000,
                0 < tones <= 0x8000_0000,
        ;
        let first = ceil_div_exec(start_numer * tones, start.denom() as i128);
        let last = floor_div_exec(end_numer * tones, end.denom() as i128);
        assert(-0x8000_0000 * 0x8000_0000 - 1 <= first <= 0x8000_0000 * 0x8000_0000 + 1)
            by (nonlinear_arith)
            requires
                first == (start_numer * tones + start.spec_denom() - 1) / start.spec_denom(),
                start.spec_denom() > 0,
                -0x8000_0000 * 0x8000_0000 <= start_numer * tones <= 0x8000_0000 * 0x8000_0000,
        ;
        let whole = floor_div_exec(first, tones);
        assert(first - tones < tones * whole <= first) by (nonlinear_arith)
            requires
                whole == first as int / tones as int,
                tones > 0,
        ;
        let offset = first - tones * whole;
        assert(offset == first as int % tones as int) by (nonlinear_arith)
            requires
                offset == first - tones * (first as int / tones as int),
                tones > 0,
        ;
        let count: i128 = self.pattern.len() as i128;
        let mut lines: Vec<GridLine> = Vec::new();
        let mut step = first;
        while step <= last
            invariant
                tones == self.tones_per_octave,
                tones > 0,
                count == self.pattern.len(),
                count > 0,
                first == self.step_at_or_above(start),
                last == self.step_at_or_below(end),
                i32::MIN < first,
                last <= i32::MAX,
                first <= step,
                step <= last + 1 || step == first,
                offset == first as int % tones as int,
                0 <= offset < tones,
                lines.len() == step - first,
                forall|i: int|
                    0 <= i < lines.len() ==> (#[trigger] lines[i]).pitch.is_ratio(
                        first + i,
                        tones as int,
                    ) && lines[i].line_type == self.colour_at(first as int, i),
            decreases last - step + 1,
        {
            let at = step - first + offset;
            let colour = self.pattern[(at % count) as usize];
            lines.push(GridLine { pitch: Pitch::new(step as i32, self.tones_per_octave), line_type: colour });
            step = step + 1;
        }
        lines
    }
}

impl PitchGrid for TetGrid {
    open spec fn has_lines(&self, start: Pitch, end: Pitch) -> bool {
        &&& self.tones_per_octave > 0
        &&& self.pattern.len() > 0
        &&& i32::MIN < self.step_at_or_above(start)
        &&& self.step_at_or_below(end) <= i32::MAX
    }

    open spec fn lines_are(&self, start: Pitch, end: Pitch, lines: Seq<GridLine>) -> bool {
        &&& lines.len() == (if self.step_at_or_below(end) < self.step_at_or_above(start) {
            0
        } else {
            self.step_at_or_below(end) - self.step_at_or_above(start) + 1
        })
        &&& forall|i: int|
            0 <= i < lines.len() ==> (#[trigger] lines[i]).pitch.is_ratio(
                self.step_at_or_above(start) + i,
                self.tones_per_octave as int,
            ) && lines[i].line_type == self.colour_at(self.step_at_or_above(start), i)
    }

    open spec fn snaps(&self, pitch: Pitch) -> bool {
        self.tones_per_octave > 0 && i32::MIN < self.nearest_step(pitch) <= i32::MAX
    }

    open spec fn snaps_to(&self, pitch: Pitch, snapped: Pitch) -> bool {
        snapped.is_ratio(self.nearest_step(pitch), self.tones_per_octave as int)
    }

    fn get_grid_lines(&self, start: Pitch, end: Pitch) -> (lines: Vec<GridLine>) {
        TetGrid::get_grid_lines(self, start, end)
    }

    fn quantize_pitch(&self, pitch: Pitch) -> (snapped: Pitch) {
        TetGrid::quantize_pitch(self, pitch)
    }
}

} // verus!
