//! Packing rectangular boxes into rows of shelves so that the width plus the
//! height of the packing is small, with box sizes known only from noisy
//! measurements.
pub mod hash;
pub mod input;
pub mod state;
pub mod beam;
pub mod measure;
pub mod plan;
pub mod landing;
