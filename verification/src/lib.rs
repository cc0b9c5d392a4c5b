//! Minesweeper rules and a pure deduction solver for hints.
//!
//! No UI here: the board engine, the solver, best times and the command
//! line are plain logic with contracts.

pub mod board;
pub mod cli;
pub mod counting;
pub mod describe;
pub mod icons;
pub mod session;
pub mod solver;
pub mod stats;
pub mod text;

pub use board::{Difficulty, Game};
pub use cli::{parse_cli, CliAction};
pub use icons::SweepIcon;
pub use solver::Hint;
