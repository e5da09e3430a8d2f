//! The grid of the time axis: bars, beats and sixteenths.

use crate::math::{ceil_div, ceil_div_exec, floor_div, floor_div_exec};
use vstd::prelude::*;

verus! {

/// How a grid line counts in the bar.
#[derive(Clone, Copy, Debug, PartialEq, Eq, Structural)]
pub enum LineType {
    /// The first line of a bar, with the bar's number, counted from one at
    /// tick zero.
    Bar(i32),
    /// The first line of a beat inside a bar.
    Beat,
    /// Any other sixteenth.
    InBetween,
}

/// A line of the grid at `tick`.
#[derive(Clone, Copy, Debug, PartialEq, Eq, Structural)]
pub struct GridLine {
    pub tick: i32,
    pub line_type: LineType,
}

/// A grid on the time axis: it has lines to draw and ticks to snap to.
pub trait TickGrid {
    /// The grid can list its lines from the tick `start` up to the tick
    /// after `end`.
    spec fn has_lines(&self, start: i32, end: i32) -> bool;

    /// The lines of the grid from the tick `start` up to the tick after
    /// `end`, in rising order.
    spec fn lines_between(&self, start: i32, end: i32) -> Seq<GridLine>;

    /// The grid can snap the tick.
    spec fn snaps(&self, tick: i32) -> bool;

    /// The tick snapped to the grid.
    spec fn snapped(&self, tick: i32) -> int;

    /// The distance between the lines of the grid at the tick.
    spec fn size_at(&self, tick: i32) -> int;

    /// The lines of the grid from the tick `start` up to the tick after
    /// `end`.
    fn get_grid_lines(&self, start: i32, end: i32) -> (lines: Vec<GridLine>)
        requires
            self.has_lines(start, end),
        ensures
            lines@ == self.lines_between(start, end),
    ;

    /// Snaps a tick to the grid.
    fn quantize_tick(&self, tick: i32) -> (snapped: i32)
        requires
            self.snaps(tick),
        ensures
            snapped == self.snapped(tick),
    ;

    /// The distance between the lines of the grid at the tick.
    fn grid_size(&self, tick: i32) -> (size: i32)
        ensures
            size == self.size_at(tick),
    ;
}

/// A grid of evenly spaced sixteenth notes, four to the beat and sixteen to
/// the bar.
#[derive(Clone, Copy, Debug)]
pub struct SimpleGrid {
    ticks_per_16th: i32,
}

/// The kind of the grid line with the given number, counted in sixteenths
/// from tick zero.
pub open spec fn line_type_at(step: int) -> LineType {
    if step % 16 == 0 {
        LineType::Bar((step / 16 + 1) as i32)
    } else if step % 4 == 0 {
        LineType::Beat
    } else {
        LineType::InBetween
    }
}

/// The grid line with the given number, counted in sixteenths from tick
/// zero, on a grid with `spacing` ticks to the sixteenth.
pub open spec fn grid_line(step: int, spacing: int) -> GridLine {
    GridLine { tick: (step * spacing) as i32, line_type: line_type_at(step) }
}

/// The multiple of `spacing` nearest to `tick`, where a tie goes to the
/// multiple that is further from zero for a tick at or above zero, and
/// division rounds toward zero.
pub open spec fn quantized(tick: int, spacing: int) -> int {
    let shifted = tick + spacing / 2;
    if shifted >= 0 {
        (shifted / spacing) * spacing
    } else {
        -((-shifted) / spacing) * spacing
    }
}

/// Snapping moves a tick toward zero or by less than half a step away from
/// it: the snapped tick lies between zero and the tick shifted by half a
/// step.
pub proof fn lemma_quantized_bounds(tick: int, spacing: int)
    requires
        spacing > 0,
    ensures
        tick + spacing / 2 >= 0 ==> 0 <= quantized(tick, spacing) <= tick + spacing / 2,
        tick + spacing / 2 < 0 ==> tick + spacing / 2 <= quantized(tick, spacing) <= 0,
{
    let shifted = tick + spacing / 2;
    if shifted >= 0 {
        assert(0 <= (shifted / spacing) * spacing <= shifted) by (nonlinear_arith)
            requires
                shifted >= 0,
                spacing > 0,
        ;
    } else {
        assert(0 <= ((-shifted) / spacing) * spacing <= -shifted) by (nonlinear_arith)
            requires
                shifted < 0,
                spacing > 0,
        ;
        assert(-((-shifted) / spacing) * spacing == -(((-shifted) / spacing) * spacing))
            by (nonlinear_arith);
    }
}

impl SimpleGrid {
    /// The lines of the grid are at least one tick apart.
    #[verifier::type_invariant]
    pub closed spec fn well_formed(self) -> bool {
        self.ticks_per_16th > 0
    }

    /// The distance between two neighbouring grid lines, in ticks.
    pub closed spec fn spacing(self) -> int {
        self.ticks_per_16th as int
    }

    /// A grid with a line every `ticks_per_16th` ticks.
    pub fn new(ticks_per_16th: i32) -> (grid: SimpleGrid)
        requires
            ticks_per_16th > 0,
        ensures
            grid.spacing() == ticks_per_16th,
    {
        SimpleGrid { ticks_per_16th }
    }

    /// The distance between two neighbouring grid lines; it is the same
    /// everywhere.
    pub fn grid_size(&self, _tick: i32) -> (size: i32)
        ensures
            size == self.spacing(),
            size > 0,
    {
        proof {
            use_type_invariant(self);
        }
        self.ticks_per_16th
    }

    /// Snaps a tick to the grid.
    pub fn quantize_tick(&self, tick: i32) -> (snapped: i32)
        requires
            tick + self.spacing() / 2 <= i32::MAX,
        ensures
            snapped == quantized(tick as int, self.spacing()),
    {
        proof {
            use_type_invariant(self);
        }
        let spacing = self.ticks_per_16th;
        let shifted = tick + spacing / 2;
        let steps = shifted / spacing;
        proof {
            if shifted >= 0 {
                assert(0 <= (shifted / spacing) * spacing <= shifted) by (nonlinear_arith)
                    requires
                        shifted >= 0,
                        spacing > 0,
                ;
            } else {
                assert(0 <= ((-shifted) / (spacing as int)) * spacing <= -shifted)
                    by (nonlinear_arith)
                    requires
                        shifted < 0,
                        spacing > 0,
                ;
                assert(steps * spacing == -(((-shifted) / (spacing as int)) * spacing))
                    by (nonlinear_arith)
                    requires
                        steps == -((-shifted) / (spacing as int)),
                ;
            }
        }
        steps * spacing
    }

    /// The grid lines from the tick `start` up to and including the tick
    /// after `end`, in rising order.
    pub fn get_grid_lines(&self, start: i32, end: i32) -> (lines: Vec<GridLine>)
        requires
            end < i32::MAX,
        ensures
            lines.len() == (if floor_div(end + 1, self.spacing()) < ceil_div(
                start as int,
                self.spacing(),
            ) {
                0
            } else {
                floor_div(end + 1, self.spacing()) - ceil_div(start as int, self.spacing()) + 1
            }),
            forall|i: int|
                0 <= i < lines.len() ==> #[trigger] lines[i] == grid_line(
                    ceil_div(start as int, self.spacing()) + i,
                    self.spacing(),
                ),
    {
        proof {
            use_type_invariant(self);
        }
        let spacing: i128 = self.ticks_per_16th as i128;
        let first = ceil_div_exec(start as i128, spacing);
        let last = floor_div_exec(end as i128 + 1, spacing);
        proof {
            assert(first * spacing >= start && (first - 1) * spacing < start) by (nonlinear_arith)
                requires
                    first == (start + spacing - 1) / (spacing as int),
                    spacing > 0,
            ;
            assert(last * spacing <= end + 1 && (last + 1) * spacing > end + 1) by (nonlinear_arith)
                requires
                    last == (end + 1) / (spacing as int),
                    spacing > 0,
            ;
        }
        let mut lines: Vec<GridLine> = Vec::new();
        let mut step = first;
        while step <= last
            invariant
                spacing == self.spacing(),
                spacing > 0,
                first <= step,
                step <= last + 1 || step == first,
                first == ceil_div(start as int, spacing as int),
                last == floor_div(end + 1, spacing as int),
                first * spacing >= start,
                last * spacing <= end + 1,
                end < i32::MAX,
                lines.len() == step - first,
                forall|i: int|
                    0 <= i < lines.len() ==> #[trigger] lines[i] == grid_line(first + i, spacing as int),
            decreases last - step + 1,
        {
            proof {
                assert(first * spacing <= step * spacing <= last * spacing) by (nonlinear_arith)
                    requires
                        first <= step <= last,
                        spacing > 0,
                ;
                assert(-0x8000_0000 <= step <= 0x8000_0000) by (nonlinear_arith)
                    requires
                        -0x8000_0000 <= step * spacing <= 0x8000_0000,
                        spacing > 0,
                ;
            }
            let bar = floor_div_exec(step, 16);
            let beat = floor_div_exec(step, 4);
            let line_type = if step - 16 * bar == 0 {
                LineType::Bar((bar + 1) as i32)
            } else if step - 4 * beat == 0 {
                LineType::Beat
            } else {
                LineType::InBetween
            };
            lines.push(GridLine { tick: (step * spacing) as i32, line_type });
            step = step + 1;
        }
        lines
    }
}

impl SimpleGrid {
    /// How many lines the grid has from the tick `start` up to the tick
    /// after `end`.
    pub open spec fn line_count(self, start: int, end: int) -> int {
        if floor_div(end + 1, self.spacing()) < ceil_div(start, self.spacing()) {
            0
        } else {
            floor_div(end + 1, self.spacing()) - ceil_div(start, self.spacing()) + 1
        }
    }
}

impl TickGrid for SimpleGrid {
    open spec fn has_lines(&self, start: i32, end: i32) -> bool {
        end < i32::MAX
    }

    open spec fn lines_between(&self, start: i32, end: i32) -> Seq<GridLine> {
        Seq::new(
            self.line_count(start as int, end as int) as nat,
            |i: int| grid_line(ceil_div(start as int, self.spacing()) + i, self.spacing()),
        )
    }

    open spec fn snaps(&self, tick: i32) -> bool {
        tick + self.spacing() / 2 <= i32::MAX
    }

    open spec fn snapped(&self, tick: i32) -> int {
        quantized(tick as int, self.spacing())
    }

    open spec fn size_at(&self, tick: i32) -> int {
        self.spacing()
    }

    fn get_grid_lines(&self, start: i32, end: i32) -> (lines: Vec<GridLine>) {
        let lines = SimpleGrid::get_grid_lines(self, start, end);
        assert(lines@ =~= self.lines_between(start, end));
        lines
    }

    fn quantize_tick(&self, tick: i32) -> (snapped: i32) {
        SimpleGrid::quantize_tick(self, tick)
    }

    fn grid_size(&self, tick: i32) -> (size: i32) {
        SimpleGrid::grid_size(self, tick)
    }
}

} // verus!
