//! Procedural generation of perfect mazes on a rectangular grid by
//! randomized depth-first carving.
//!
//! The grid is a dense matrix of [`grid::Cell`] values; carving works on the
//! sub-lattice of cells whose coordinates are both odd (the "rooms"),
//! clearing the cell between two rooms to open a corridor exactly one cell
//! wide. The whole algorithm is modelled by spec functions in [`model`], and
//! generation driven by an injected fixed random source is proved equal to
//! that model, which pins the result down completely.

pub mod grid;
pub mod maze;
pub mod model;
pub mod rng;
