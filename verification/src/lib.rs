//! A grid-maze solver: a rectangular maze is parsed from a text encoding,
//! its boundary openings are located, and a route between two openings is
//! computed either by an unguided depth-first search or by a heuristic
//! best-first search. Both searches share a predecessor-map representation
//! of the search tree and a common route-reconstruction routine.

pub mod coord;
pub mod text;
pub mod maze;
pub mod search;
pub mod tables;
pub mod frontier;
