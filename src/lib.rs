//! A grid maze: random spanning-tree generation and a cursor that walks it.
pub mod cell;
pub mod generator;
pub mod graph;
pub mod maze;
pub mod vec_set;

pub use cell::Cell;
pub use maze::{Direction, Maze, MazeError};
