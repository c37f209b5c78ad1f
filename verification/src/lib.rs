//! Shortest-path search on a uniform 2-D grid with impassable cells.
//!
//! The grid is described by its dimensions and an obstacle mask; the search
//! is a best-first walk guided by the Manhattan distance, and a successful
//! search yields the ordered chain of coordinates from the cell just before
//! the goal back to the start.

pub mod grid;
pub mod lemmas;
pub mod search;
