//! Exact packing of a rectangular board with polyomino pieces.
//!
//! `grid` holds the mathematical model of a cell grid and `area` the laws on
//! counting its cells; `matrix` and `shape` are the executable grid and its
//! geometric operations, `pattern` its text form; `solver` is the
//! backtracking search, and `display` and `colorize` show its steps as text.
pub mod grid;
pub mod area;
pub mod matrix;
pub mod shape;
pub mod pattern;
pub mod solver;
pub mod colorize;
pub mod display;
