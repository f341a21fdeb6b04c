//! The first robot-arm solver: a fixed arm of doubling segments whose base
//! walks the board while its fingertips grab and release takoyaki.
pub mod arm;
pub mod beam;
pub mod input;
pub mod shape;
pub mod state;
pub mod legal;
