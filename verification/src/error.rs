//! The failures of the checksum and of the frame codec.
use vstd::prelude::*;

verus! {

/// Why a frame could not be built or taken apart. None of these is retried
/// inside the library.
#[derive(Clone, Copy, Debug, PartialEq, Eq, Structural)]
pub enum FrameError {
    /// The destination buffer cannot hold what had to be written to it.
    CapacityExceeded,
    /// An escape byte is followed by no byte or by one that continues no
    /// escape sequence, or the frame holds no byte at all.
    MalformedEscape,
    /// The checksum over the unescaped bytes is not zero.
    ChecksumMismatch,
}

} // verus!
