//! The vocabulary between the protocol engine and the datagram socket.
//!
//! Peers are named by opaque address tokens (`u64`); the socket layer
//! owns the mapping between tokens and real addresses. Times are
//! milliseconds of a monotonic clock.

use vstd::prelude::*;

use crate::{spec_magic, Bytes};

verus! {

/// What the socket reports upward.
pub enum UdpEvent {
    /// A tracked server datagram left the wire: peer token, sequence,
    /// send time.
    SentServer(u64, u16, u64),
    /// A tracked client datagram left the wire: sequence, send time.
    SentClient(u16, u64),
    /// A datagram arrived: peer token, its bytes after the magic,
    /// receive time.
    Read(u64, Bytes, u64),
}

/// What the engine hands the socket to send.
pub enum UdpSendEvent {
    /// Framed bytes for a peer, acked later under the given sequence.
    ServerTracking(Bytes, u64, u16),
    /// Framed bytes for a peer, fire-and-forget.
    Server(Bytes, u64),
    /// Framed bytes for the connected server, acked later under the
    /// given sequence.
    ClientTracking(Bytes, u16),
    /// Framed bytes for the connected server, fire-and-forget.
    Client(Bytes),
}

/// The remainder of a raw datagram once its magic prefix checks out:
/// anything shorter than the magic, or not starting with it, is dropped
/// before any parsing.
pub fn accept_datagram(packet: &[u8]) -> (r: Option<Bytes>)
    ensures
        match r {
            Some(rest) => packet@.len() >= 4 && packet@.subrange(0, 4) =~= spec_magic() && rest@
                =~= packet@.subrange(4, packet@.len() as int),
            None => packet@.len() < 4 || !(packet@.subrange(0, 4) =~= spec_magic()),
        },
{
    if packet.len() < 4 {
        return None;
    }
    if packet[0] == 1 && packet[1] == 27 && packet[2] == 25 && packet[3] == 14 {
        let rest = vstd::slice::slice_to_vec(&packet[4..packet.len()]);
        proof {
            assert(packet@.subrange(0, 4) =~= spec_magic());
        }
        Some(rest)
    } else {
        proof {
            if packet@.subrange(0, 4) =~= spec_magic() {
                assert(packet@[0] == 1 && packet@[1] == 27 && packet@[2] == 25 && packet@[3]
                    == 14);
            }
        }
        None
    }
}

} // verus!
