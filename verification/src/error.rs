//! The ways in which the codec rejects its input.

use vstd::prelude::*;

verus! {

/// Why an operation of the codec failed.
#[derive(Debug, Clone, Copy, PartialEq, Eq, Structural)]
pub enum PngError {
    /// A byte of a chunk type code is not an ASCII letter; holds that byte.
    InvalidByte(u8),
    /// A chunk type code given as text is not four bytes long; holds its
    /// length in bytes.
    InvalidLength(usize),
    /// The input does not begin with the eight bytes of the PNG signature.
    BadSignature,
    /// A chunk record is shorter than its length, type code and checksum
    /// take, or is not as long as the length it declares asks.
    MalformedRecord,
    /// The checksum stored in a chunk record is not the checksum of its type
    /// code and data.
    ChecksumMismatch { found: u32, expected: u32 },
    /// Chunk data asked for as text holds a byte outside ASCII; holds the
    /// first such byte.
    NonAsciiByte(u8),
    /// The container holds no chunk of the type asked for.
    NotFound,
}

/// The outcome of an operation with the value that it made replaced by that
/// value's view.
pub open spec fn ok_view<T: View>(r: Result<T, PngError>) -> Result<T::V, PngError> {
    match r {
        Ok(value) => Ok(value@),
        Err(e) => Err(e),
    }
}

} // verus!
