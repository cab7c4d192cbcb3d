//! The discriminated error type shared by the transport, the session,
//! the command layer and the store.

use vstd::prelude::*;

verus! {

/// Every failure a caller can see from this library.
#[derive(Debug, Clone, Copy, PartialEq, Eq, Structural)]
pub enum Error {
    /// The underlying byte stream failed to read or write.
    IoError,
    /// The peer answered the initial transport handshake with this
    /// non-zero status code.
    HandshakeRejected(u32),
    /// The peer broke the framing or session rules; the payload is the
    /// offending 32-bit word (a control kind, or a light id).
    ProtocolError(u32),
    /// A record could not be decoded from its tagged binary encoding.
    DecodeError,
    /// A command expected at least one block header and none arrived.
    NoHeader,
    /// A command expected a response payload and none arrived.
    NoData,
    /// A store lookup found nothing under the given hash.
    NotFound,
}

} // verus!
