use vstd::prelude::*;

verus! {

/// Everything that can go wrong while decoding a datagram, plus the
/// not-found outcome of a record lookup.
///
/// All structural decode errors are fatal to the current datagram only:
/// decoding is all-or-nothing and a caller is expected to drop the
/// malformed datagram and continue listening.
#[derive(Clone, Copy, Debug, PartialEq, Eq, Structural)]
pub enum MDNSError {
    /// The buffer holds fewer bits than a fixed-width field requires.
    InsufficientBits,
    /// A section count promises more elements than the buffer holds.
    InsufficientData,
    /// A length byte or pointer-prefix pattern violates the wire format.
    InvalidEncoding,
    /// A compression pointer targets a byte outside the datagram or
    /// inside the fixed header.
    PointerOutOfRange,
    /// A compression-pointer chain revisits an offset.
    CompressionCycle,
    /// No resource record of the requested type exists in the message.
    NotFound,
}

} // verus!
