//! Minesweeper probe analysis: decides whether a marked cell of a partially
//! revealed board is certainly safe, certainly a mine, or undetermined.

pub mod board;
pub mod propagation;
pub mod parse;
pub mod encoding;
pub mod decision;

pub use board::{Configuration, Square};
pub use propagation::{ProbeResult, check_configuration};
pub use parse::ParseError;
pub use decision::{
    SolveError, decide_probe, probe_formula, solve_sat_problem, solve_with_probe, verdict_from_answers,
};
