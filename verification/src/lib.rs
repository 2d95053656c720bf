//! Conway's Game of Life on an unbounded plane, stored as a sparse set of
//! fixed-size chunks that come into being where activity spreads.

pub mod chunk;
pub mod grid;
pub mod mesh;
pub mod state;
pub mod universe;
pub mod utils;
pub mod world;

pub use chunk::Chunk;
pub use state::{CursorDrawState, GlobalState};
pub use universe::Universe;
