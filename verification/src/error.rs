//! The error taxonomy shared by every codec and by the stream reassembler.

use vstd::prelude::*;

verus! {

/// Everything that can go wrong in this crate.
///
/// `ParseError` covers malformed, truncated or reserved-value input seen while
/// decoding; `SerializeError` covers encode-time invariant violations (for
/// example a reason phrase too long for its length field); `PacketTooLarge`
/// is the encode-time datagram ceiling; `TextEncodingError` marks a reason
/// phrase that is not valid UTF-8; `TransportError` carries a protocol-level
/// error code taken from the wire (data, not a local fault).
#[derive(Debug, Clone, Copy, PartialEq, Eq, Structural)]
pub enum QuicError {
    ParseError,
    SerializeError,
    PacketTooLarge,
    TextEncodingError,
    TransportError(u32),
}

} // verus!
