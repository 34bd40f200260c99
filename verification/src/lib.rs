pub mod action;
pub mod collision;
pub mod enemy;
pub mod geom;
pub mod levels;
pub mod loader;
pub mod los;
pub mod maze;
pub mod pathfind;
pub mod player;
pub mod raycast;
pub mod sprite;
pub mod tile;

use vstd::prelude::*;

verus! {

/// World-unit width and height of one grid cell, as used by the shipped levels.
pub const DEFAULT_CELL_SIZE: i32 = 48;

/// Largest grid dimension (cells per side) the engine accepts.
pub const MAX_GRID_DIM: usize = 1024;

/// Largest cell size (world units) the engine accepts.
pub const MAX_CELL_SIZE: i32 = 1024;

} // verus!
