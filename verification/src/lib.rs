//! Perfect mazes on a rectangular grid.
//!
//! A [`grid::SmartGrid`] is a matrix of cells addressed by their
//! [`location::Location`]. Four generators in [`maze_makers`] carve passages
//! into a fresh grid until they form a spanning tree of its cells, taking
//! their random choices from a source of [`random::Draws`], and the solver in
//! [`solve`] writes into every cell its distance from an origin. [`render`]
//! gives what a renderer needs: the open and closed sides of every cell, and
//! the maze as a plain-text picture.
//!
//! The contracts of the functions speak of the mathematical value of a grid,
//! [`grid::GridView`]; [`graph`] says what makes such a value a perfect maze,
//! and [`validity`] tells at run time whether a grid is valid.

pub mod location;
pub mod cell;
pub mod grid;
pub mod validity;
pub mod graph;
pub mod orientation;
pub mod distance;
pub mod random;
pub mod growth;
pub mod binary_tree_state;
pub mod sidewinder_state;
pub mod maze_makers;
pub mod solve;
pub mod render;
pub mod sidewinder_hardcoded;
pub mod select;
