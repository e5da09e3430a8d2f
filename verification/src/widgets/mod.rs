//! What the editor's widgets decide: the grids they snap to, and what the
//! mouse does on the piano roll and on the timeline.

pub mod piano_roll;
pub mod pitch_grid;
pub mod tick_grid;
pub mod timeline;
