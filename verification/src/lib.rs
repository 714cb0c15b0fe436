//! Conway's Game of Life on an unbounded plane, stored sparsely as the sorted
//! sequence of alive cells.
//!
//! The engine computes a generation from the one before it without a grid:
//! cursors scan the rows of the alive set, three at a time, and a table says
//! for each 3x3 neighbourhood whether its centre lives. A generation can also
//! be computed in bands of neighbouring cells that are merged afterwards.
//! Around the engine stand the run-length codec for patterns, the statistics
//! of a run, its options, and the console view.

pub mod console;
pub mod enc;
pub mod engine;
pub mod options;
pub mod pos;
pub mod stats;
pub mod text;

pub use enc::{PositionEncoder, RunLengthEncoded};
pub use engine::{GameEngineWindow, GameOfLife};
pub use pos::Pos2;
