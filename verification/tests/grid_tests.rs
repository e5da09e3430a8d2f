use sequencer::pitch::Pitch;
use sequencer::widgets::pitch_grid;
use sequencer::widgets::pitch_grid::LineType::{Black, White};
use sequencer::widgets::pitch_grid::TetGrid;
use sequencer::widgets::tick_grid::{GridLine, LineType, SimpleGrid};

#[test]
fn quantize_tick_snaps_to_the_nearest_line() {
    let grid = SimpleGrid::new(32);
    assert_eq!(grid.quantize_tick(0), 0);
    assert_eq!(grid.quantize_tick(15), 0);
    assert_eq!(grid.quantize_tick(16), 32);
    assert_eq!(grid.quantize_tick(47), 32);
    assert_eq!(grid.quantize_tick(48), 64);
    // division rounds toward zero
    assert_eq!(grid.quantize_tick(-16), 0);
    assert_eq!(grid.quantize_tick(-47), 0);
    assert_eq!(grid.quantize_tick(-48), -32);
    assert_eq!(grid.grid_size(123), 32);
}

#[test]
fn grid_lines_mark_bars_and_beats() {
    let grid = SimpleGrid::new(2);
    let lines = grid.get_grid_lines(-1, 33);
    let ticks: Vec<i32> = lines.iter().map(|l| l.tick).collect();
    assert_eq!(ticks, (0..=17).map(|n| n * 2).collect::<Vec<i32>>());
    assert_eq!(lines[0], GridLine { tick: 0, line_type: LineType::Bar(1) });
    assert_eq!(lines[1].line_type, LineType::InBetween);
    assert_eq!(lines[4].line_type, LineType::Beat);
    assert_eq!(lines[16], GridLine { tick: 32, line_type: LineType::Bar(2) });
}

#[test]
fn grid_lines_below_zero() {
    let grid = SimpleGrid::new(1);
    let lines = grid.get_grid_lines(-16, -13);
    assert_eq!(
        lines,
        vec![
            GridLine { tick: -16, line_type: LineType::Bar(0) },
            GridLine { tick: -15, line_type: LineType::InBetween },
            GridLine { tick: -14, line_type: LineType::InBetween },
            GridLine { tick: -13, line_type: LineType::InBetween },
            GridLine { tick: -12, line_type: LineType::Beat },
        ]
    );
    assert!(grid.get_grid_lines(5, 2).is_empty());
}

#[test]
fn tet_grid_keeps_what_it_is_given() {
    let grid = TetGrid::new(12, vec![pitch_grid::LineType::White, pitch_grid::LineType::Black]);
    assert_eq!(grid.tones_per_octave, 12);
    assert_eq!(grid.pattern.len(), 2);
}

#[test]
fn quantize_pitch_snaps_to_the_nearest_step() {
    let grid = TetGrid::new(12, vec![pitch_grid::LineType::White]);
    assert_eq!(grid.quantize_pitch(Pitch::new(1, 12)), Pitch::new(1, 12));
    assert_eq!(grid.quantize_pitch(Pitch::new(1, 10)), Pitch::new(1, 12));
    assert_eq!(grid.quantize_pitch(Pitch::new(1, 24)), Pitch::new(1, 12));
    assert_eq!(grid.quantize_pitch(Pitch::new(-1, 24)), Pitch::new(-1, 12));
    assert_eq!(grid.quantize_pitch(Pitch::new(1, 25)), Pitch::new(0, 1));
    assert_eq!(grid.quantize_pitch(Pitch::new(7, 5)), Pitch::new(17, 12));
}

#[test]
fn pitch_grid_lines_follow_the_pattern() {
    let grid = TetGrid::new(3, vec![White, Black, Black]);
    let lines = grid.get_grid_lines(Pitch::new(-1, 2), Pitch::new(1, 1));
    let pitches: Vec<Pitch> = lines.iter().map(|l| l.pitch).collect();
    assert_eq!(
        pitches,
        vec![
            Pitch::new(-1, 3),
            Pitch::new(0, 1),
            Pitch::new(1, 3),
            Pitch::new(2, 3),
            Pitch::new(1, 1)
        ]
    );
    let colours: Vec<pitch_grid::LineType> = lines.iter().map(|l| l.line_type).collect();
    assert_eq!(colours, vec![Black, White, Black, Black, White]);
    assert!(grid.get_grid_lines(Pitch::new(1, 2), Pitch::new(1, 4)).is_empty());
}
