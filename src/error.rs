use vstd::prelude::*;

verus! {

/// A feature of the frame format that this decoder does not support.
#[derive(Debug, Clone, Copy, PartialEq, Eq, Structural)]
pub enum Feature {
    /// A frame that names a preset dictionary.
    DictId,
}

impl Feature {
    /// Name of the feature as it appears in diagnostics.
    pub fn name(&self) -> (r: &'static str)
        ensures
            r@ == "DictID"@,
    {
        match self {
            Feature::DictId => "DictID",
        }
    }
}

/// Why a frame could not be decoded.
#[derive(Debug, Clone, Copy, PartialEq, Eq, Structural)]
pub enum DecodeError {
    /// The frame does not start with the LZ4 magic number.
    WrongMagic,
    /// The version bits of the frame descriptor are not `01`.
    WrongVersion,
    /// The input ended before the frame was complete.
    ReadIoError,
    /// The frame uses a feature this decoder does not support.
    UnsupportedFeature(Feature),
    /// A block declares a size the staging buffer cannot hold.
    InvalidBlockSize(usize),
    /// A compressed block is malformed.
    CorruptedData,
    /// Bytes follow the end of the frame.
    UnknownDataAtEnd,
}

} // verus!
