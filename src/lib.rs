//! Shortest-path search over a text maze of walls and open cells.
pub mod grid;
pub mod maze;
pub mod search;
