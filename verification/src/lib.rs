//! A 9×9 Sudoku engine: bitmask constraint propagation and a depth-first
//! search that branches on the cell with the fewest remaining candidates.
pub mod board;
pub mod cells;
pub mod display;
pub mod peers;
pub mod profile;
pub mod propagate;
pub mod puzzle;
pub mod search;
pub mod solution;
