//! Core of a tile-based dungeon engine: a grid of wall and floor tiles,
//! a room-and-corridor dungeon generator, A* pathfinding over the grid,
//! and line-of-sight visibility queries.

pub mod ai;
pub mod generator;
pub mod grid;
pub mod pathfinding;
pub mod rect;
pub mod rng;
pub mod vec2;
pub mod visibility;
