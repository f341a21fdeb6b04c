//! Decorating a graph with Christmas trees: rooted trees of height at most
//! `H` that cover every vertex, each vertex scoring its beauty times its
//! depth plus one.
pub mod input;
pub mod state;
pub mod greedy;
pub mod tree;
pub mod ratio;
pub mod anneal;
pub mod subtree;
