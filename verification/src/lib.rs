//! A search engine for a line-placement puzzle on the integer lattice.
//!
//! A move places a line of five collinear lattice points that passes through
//! four points already on the board and creates exactly one new point. Every
//! point may serve each of the four axes at most once per role. The crate
//! provides the board with its legality rules, the pluggable search strategy
//! and the backtracking search that looks for a game of a given length.

pub mod board;
pub mod extras;
pub mod game;
pub mod hashed;
pub mod line;
pub mod memo;
pub mod methods;
pub mod point;
pub mod search;
pub mod solvers;
