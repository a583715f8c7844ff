//! A 9x9 Sudoku solving engine: grid model, peer topology, candidate
//! propagation and backtracking search, with machine-checked contracts.

pub mod board;
pub mod correctness;
pub mod counting;
pub mod deadline;
pub mod digits;
pub mod fixpoint;
pub mod grid;
pub mod laws;
pub mod propagation;
pub mod rules;
pub mod search;
pub mod solver;
pub mod soundness;
pub mod topology;

pub use board::Board;
pub use digits::DigitSet;
pub use grid::{Grid, GridError};
pub use solver::{solve, solve_with, SolveOptions, SolveResult};
pub use topology::PeerIndex;
