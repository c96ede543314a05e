//! A verified Conway's Game of Life: a rectangular grid of boolean cells
//! evolving under the classic neighbor-counting rule, with a sequential and a
//! data-parallel generation engine, a line-oriented text codec, a random
//! initializer, and single-cell editing operations.

pub mod board;
pub mod codec;
pub mod engine;
pub mod fixtures;
pub mod random;

pub use board::Board;
pub use board::BoardError;
pub use fixtures::testing_board;
