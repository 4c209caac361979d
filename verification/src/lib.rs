//! Bullpen (star battle) puzzles: a dancing-links exact-cover engine, solvers
//! for one and two bulls per row, column and region, and puzzle generators.

pub mod board;
pub mod cell;
pub mod connect;
pub mod cover;
pub mod double;
pub mod double_count;
pub mod gen_single;
pub mod gendoubleai;
pub mod genpenai;
pub mod grid;
pub mod llist;
pub mod matching;
pub mod matrix;
pub mod place;
pub mod regions;
pub mod render;
pub mod rng;
pub mod transport;
pub mod solver;

pub use cell::Cell;
pub use gen_single::GenPen;
pub use genpenai::generate;
pub use llist::{Cursor, LList, Link};
pub use matrix::{Matrix, H};
pub use solver::BullpenSolver;
