//! Sliding rows and columns of an `N x N` board so that every oni (`x`)
//! leaves the board while no fukunokami (`o`) does.
pub mod hash;
pub mod input;
pub mod state;
pub mod laws;
pub mod pieces;
