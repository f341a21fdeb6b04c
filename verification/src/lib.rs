//! Solvers and their building blocks for a series of grid and geometry
//! optimisation contests: grid coordinates, move/rotation encodings, incremental
//! Zobrist-style hashes, candidate generation and state transitions for beam
//! searches, breadth-first searches on grids and polygon tracing.
#![allow(non_snake_case)]

pub mod coord;
pub mod fxset;
pub mod grid;
pub mod text;
pub mod rng;
pub mod sorting;
pub mod words;
pub mod a;
pub mod ahc038;
pub mod ahc039;
pub mod ahc040;
pub mod ahc041;
pub mod ahc042;
pub mod ahc043;
pub mod ahc045;

