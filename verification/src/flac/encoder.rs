//! Coders for the byte-level fields of a frame.

pub mod crc;
pub mod rice;
pub mod utf8;
