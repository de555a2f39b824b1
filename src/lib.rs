//! Fits a list of words onto a fixed character grid, enumerating every
//! configuration in which each word traces a four-connected path from the
//! cell of its first letter to the cell of its last letter.

pub mod point;
pub mod grid;
pub mod tile;
pub mod search;
pub mod render;
pub mod setup;
pub mod input;
pub mod walk;
