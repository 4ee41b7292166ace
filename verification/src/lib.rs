//! A FLAC encoder core: predictors, Rice coding, bit packing, frame assembly
//! and the checksums that frame them, each stated over mathematical models
//! and proved against them.

pub mod flac;
pub mod wav;
