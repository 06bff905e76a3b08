//! Error types for the Zopfli library.
use vstd::prelude::*;

verus! {

/// Error types for the Zopfli library.
#[derive(Debug, PartialEq, Eq, Clone, Copy, Structural)]
pub enum Error {
    /// Too few maxbits to represent symbols in Huffman coding.
    TooFewMaxBits,
    /// Internal count exceeded 9-bit representation in Katajainen algorithm.
    KatajainenCountOverflow,
    /// Invalid frequency or length slices provided (length mismatch).
    SliceLengthMismatch,
    /// Invalid compression format specified.
    InvalidFormat,
    /// Output buffer capacity exceeded or allocation failed.
    CapacityExceeded,
    /// Invalid deflate block type.
    InvalidBlockType,
    /// Internal compression error.
    CompressionFailed,
}

impl Error {
    /// The human-readable description of the error.
    pub fn message(&self) -> (m: &'static str)
        ensures
            m@ == match self {
                Error::TooFewMaxBits => "Too few maxbits to represent symbols in Huffman coding"@,
                Error::KatajainenCountOverflow => "Internal count exceeded 9-bit representation in Katajainen algorithm"@,
                Error::SliceLengthMismatch => "Invalid frequency or length slices provided (length mismatch)"@,
                Error::InvalidFormat => "Invalid compression format specified"@,
                Error::CapacityExceeded => "Output buffer capacity exceeded or allocation failed"@,
                Error::InvalidBlockType => "Invalid deflate block type"@,
                Error::CompressionFailed => "Internal compression error"@,
            },
    {
        match self {
            Error::TooFewMaxBits => "Too few maxbits to represent symbols in Huffman coding",
            Error::KatajainenCountOverflow => "Internal count exceeded 9-bit representation in Katajainen algorithm",
            Error::SliceLengthMismatch => "Invalid frequency or length slices provided (length mismatch)",
            Error::InvalidFormat => "Invalid compression format specified",
            Error::CapacityExceeded => "Output buffer capacity exceeded or allocation failed",
            Error::InvalidBlockType => "Invalid deflate block type",
            Error::CompressionFailed => "Internal compression error",
        }
    }
}

} // verus!
