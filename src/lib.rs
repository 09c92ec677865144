//! Streaming decoder for the LZ4 frame format.
//!
//! The library is split into a staging buffer for input bytes, a sliding
//! window for emitted bytes, a mathematical model of the wire format, and a
//! decoder that ties them together as a state machine fed by its caller.
pub mod read_buf;
pub mod write_buf;
pub mod error;
pub mod format;
pub mod decoder;
pub mod laws;

pub use decoder::{LzDecoder, is_bit_set};
pub use error::{DecodeError, Feature};
pub use format::{FrameHeaderInfo, Phase};
pub use read_buf::Lz4ReadBuf;
pub use write_buf::Lz4WriteBuf;
