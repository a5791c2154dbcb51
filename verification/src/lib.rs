//! Conway's Game of Life on a finite rectangular grid.
//!
//! The grid does not wrap around: neighbours that fall outside the grid are
//! counted as dead. A live cell flips (dies) when its live-neighbour count is
//! not 2 or 3; a dead cell flips (becomes alive) when the count is exactly 3.

pub mod board;
pub mod game;
pub mod point;
