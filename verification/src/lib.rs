//! Maze image solver: extracts a navigable grid from a decoded RGB pixel
//! buffer, resolves the start and end markers, and runs a best-first
//! shortest-path search over the grid with 8-connected movement.

pub mod backend;
pub mod cell;
pub mod djikstra;
pub mod errors;
pub mod matrix;
pub mod pixels;
