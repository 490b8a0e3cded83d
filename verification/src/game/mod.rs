//! The core Go logic.

/// A structure that maintains the board's arrangement of stones and properties derived from the
/// arrangement.
pub mod board;
/// The errors of the engine.
pub mod error;
/// A matrix and the regions of its cells.
pub mod graph;
/// The geometry of the grid and its connected regions.
pub mod grid;
/// A structure that holds the state all of the verticies of the board in a matrix.
pub mod matrix;
/// Black or White.
pub mod player;
/// A set of connected cells, and how it is grown.
pub mod region;
/// Lists of regions that divide the cells among them.
pub mod regions;
/// The board as text.
pub mod render;
/// The game record: moves, earlier positions, and what the rules allow next.
pub mod record;
/// A structure for storing the x and y coordinates of a board cell.
pub mod vertex;

/// The possible board vertex states.
pub mod web;

pub use crate::game::record::{Clock, Game, Handicap, RuleSet};
