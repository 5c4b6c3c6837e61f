//! The failure taxonomy of the decoder.
use vstd::prelude::*;

verus! {

/// Why a decode failed. Any failure aborts the whole decode: downstream
/// offsets depend on correctly parsed upstream lengths, so there is no
/// partial-document recovery.
#[derive(Clone, Copy, Debug, PartialEq, Eq, Structural)]
pub enum DecodeError {
    /// The buffer ended before a required fixed-width field.
    Truncated,
    /// A computed offset or length exceeds the buffer.
    OutOfBounds,
    /// A string-pool or name index is out of range, or a chunk's declared
    /// sizes are inconsistent with its container.
    Malformed,
    /// Pooled string bytes are not valid UTF-8 / UTF-16.
    InvalidEncoding,
}

} // verus!
