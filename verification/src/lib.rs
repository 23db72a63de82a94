//! Planning of parametric measurement series for a fluid solver: which
//! parameter combinations are measured, where their results are written,
//! and how the solver is invoked for each of them.

pub mod file_operations;
pub mod config;
pub mod naming;
pub mod runner;
