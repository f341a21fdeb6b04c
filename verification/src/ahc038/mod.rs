//! Robot-arm transport on an `N x N` board: an arm tree rooted at a movable
//! base picks up takoyaki from their start squares and drops them on target
//! squares.
pub mod state;
pub mod arm;
pub mod hash;
pub mod input;
pub mod moves;
pub mod turns;
