//! The FLAC stream: leaf coders first, frames on top of them.

pub mod bitstream;
pub mod digest;
pub mod encoder;
pub mod frame;
pub mod lossless;
pub mod lpc;
pub mod stereo;
pub mod stream;
pub mod subframe;
pub mod writer;

pub use frame::{FlacFrame, FlacFrameHeaderValueOption};
pub use stereo::ChannelAssignment;
pub use stream::{FlacWriter, FlacWriterError};
pub use subframe::{FlacSubframe, FlacSubframeType};
pub use writer::EncodedStream;
