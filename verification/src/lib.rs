//! A logical Sudoku solver: it applies sound deduction strategies to a 9x9
//! grid until no further progress is possible, without guessing or
//! backtracking.

mod cells;
mod clock;
mod grid;
mod pos;
pub mod solver;
pub mod stats;
pub mod threads;

pub use cells::Candidates;
pub use cells::Cell;
pub use cells::CellValue;
pub use grid::lemma_round_trip;
pub use grid::spec_parse;
pub use grid::spec_render;
pub use grid::Error;
pub use grid::Grid;
pub use grid::Unit;
pub use pos::Position;
pub use pos::contains_position;
