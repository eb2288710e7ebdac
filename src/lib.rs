//! A* shortest-path search on a rectangular grid with walls.
pub mod cost;
pub mod grid;
pub mod location;
