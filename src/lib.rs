//! Wave Function Collapse over a toroidal tile grid: an adjacency model built
//! from a source raster, and a collapse/propagation engine whose state
//! invariants and transitions are verified.

mod bitset;
mod random;
pub mod grid;
pub mod tileset;

pub use grid::{CellState, Grid, StepResult};
pub use tileset::{ConstructionError, Direction, Raster, TileSet};
