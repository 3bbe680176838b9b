//! Error kinds surfaced by the protocol engine.

use vstd::prelude::*;

verus! {

#[derive(Debug, Clone, Copy, PartialEq, Eq, Structural)]
pub enum NetError {
    /// An inbound frame is shorter than its declared header size.
    MalformedHeader,
    /// The packet-type octet is not a recognized variant.
    UnknownPacketType,
    /// An inbound header carries a session key other than the channel's.
    SessionKeyMismatch,
    /// An outbound buffer is too small for the header being written.
    BufferTooSmall,
    /// A message split into more than the maximum number of chunks.
    TooManyFragments,
    /// A chunk's declared group size differs from the stored group's.
    FragmentSizeMismatch,
    /// A fragment group outlived its timeout.
    FragmentExpired,
    /// A chunk's fragment id is not below the declared group size.
    InvalidFragmentId,
    /// The handshake ran out of retries.
    HandshakeTimeout,
    /// The server did not accept the handshake.
    HandshakeRejected,
    /// The transport behind the send queue is gone.
    SendQueueClosed,
    /// An application message exceeds the largest sendable size.
    PacketTooLarge,
    /// An application message is empty.
    EmptyPayload,
    /// The caller's receive buffer cannot hold the payload.
    DestinationTooSmall,
    /// A fragment group is not complete or not present.
    FragmentIncomplete,
}

} // verus!
