//! Error type for the bit-packed containers.

use vstd::prelude::*;

verus! {

/// Failures of the packed bit-array containers. All failures are typed and
/// recoverable; no container operation panics.
#[derive(Debug, PartialEq, Eq, Structural, Clone, Copy)]
pub enum PackedBitsError {
    /// The element bit width is outside the accepted range `1..=32`.
    InvalidBitWidth(usize),
    /// A value does not fit in the container's element bit width.
    ValueOverflow(u32, usize),
    /// An index is at or past the element count.
    IndexOutOfBounds(usize, usize),
    /// A persisted buffer is too short for the element count it declares.
    InsufficientBytes(usize),
    /// A persisted buffer does not start with the container magic tag.
    InvalidMagic,
    /// A persisted buffer declares a different element bit width than the
    /// container it is decoded into.
    InvalidN { expected: usize, found: u32 },
    /// A persisted buffer is too short to hold the header.
    StorageTooSmall,
    /// The storage could not grow to hold another element.
    ResizeFailed,
}

} // verus!
