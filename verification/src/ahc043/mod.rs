//! Building a railway of stations and rails on an `N x N` city so that as many
//! commuters as possible can travel between home and workplace.
pub mod bfs;
pub mod hash;
pub mod rail;
pub mod state;
pub mod plan;
pub mod tree;
