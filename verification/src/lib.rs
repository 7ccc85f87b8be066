//! Grids of rooms joined by doorways, and the breadth-first walk that
//! measures how far each room lies from an entrance.

pub mod game;
pub mod map;
