//! A verified chemical-equation library: a formula model, a token parser,
//! and a balancing engine that finds minimal positive integer coefficients
//! making the atom counts of every element match across the equation.

pub mod equations;
pub mod periodic_table;
pub mod tui;
