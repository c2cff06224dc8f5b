//! A shortest-path search on a fixed-size 2D grid with impassable cells.
//!
//! The grid stores one passable/blocked flag per cell. The search is a
//! best-first expansion over the four axis-aligned unit directions, scored
//! by path length so far plus Manhattan distance to the goal, with a
//! frontier that keeps at most one candidate per cell and an explored set
//! that is never revisited.

pub mod grid;
pub mod node;
pub mod search;
pub mod text;
