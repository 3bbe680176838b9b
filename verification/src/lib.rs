//! A reliability layer over an unreliable datagram transport: sequenced
//! delivery with selective acknowledgement, RTT-paced retransmission,
//! fragmentation and reassembly, duplicate suppression, and a salt-exchange
//! handshake that defends against source-address spoofing.

use vstd::prelude::*;

pub mod bitops;
pub mod channel;
pub mod connection;
pub mod error;
pub mod events;
pub mod fragmentation_manager;
pub mod handshake;
pub mod header;
pub mod rtt_tracker;
pub mod send_buffer;
pub mod int_buffer;
pub mod manager;
pub mod packets;
pub mod salt;
pub mod sequence;
pub mod sequence_buffer;
pub mod window_buffer;

use crate::error::NetError;

verus! {

/// Capacity of the per-connection ring buffers.
pub const BUFFER_SIZE: u16 = 1024;

/// Lookback window for duplicate detection and ack generation.
/// Always has to be less than `BUFFER_SIZE`.
pub const BUFFER_WINDOW_SIZE: u16 = 256;

pub type Bytes = Vec<u8>;

/// The four magic octets that open every datagram of this protocol.
pub open spec fn spec_magic() -> Seq<u8> {
    seq![1u8, 27u8, 25u8, 14u8]
}

/// The on-wire magic prefix; a datagram that does not start with it is
/// dropped before any header parsing.
pub fn magic_number_header() -> (r: [u8; 4])
    ensures
        r@ == spec_magic(),
{
    let r: [u8; 4] = [1, 27, 25, 14];
    proof {
        assert(r@ =~= spec_magic());
    }
    r
}

/// Allocates a zeroed buffer of `payload_size + 4` bytes whose first four
/// bytes hold the magic prefix.
pub fn bytes_with_header(payload_size: usize) -> (r: Bytes)
    requires
        payload_size + 4 <= usize::MAX,
    ensures
        r@.len() == payload_size + 4,
        r@.subrange(0, 4) =~= spec_magic(),
        forall|j: int| 4 <= j < r@.len() ==> r@[j] == 0u8,
{
    let mut buffer: Bytes = vec![0u8; payload_size + 4];
    buffer[0] = 1;
    buffer[1] = 27;
    buffer[2] = 25;
    buffer[3] = 14;
    buffer
}

#[derive(Debug, Clone, Copy, PartialEq, Eq, Structural)]
pub enum PacketType {
    ConnectionRequest,
    Challenge,
    ChallengeResponse,
    ConnectionAccepted,
    PayloadReliableFrag,
    PayloadReliable,
    PayloadUnreliableFrag,
    PayloadUnreliable,
    Disconnect,
}

/// The octet each packet type takes on the wire.
pub open spec fn spec_packet_type_u8(t: PacketType) -> u8 {
    match t {
        PacketType::ConnectionRequest => 1,
        PacketType::Challenge => 2,
        PacketType::ChallengeResponse => 3,
        PacketType::ConnectionAccepted => 4,
        PacketType::PayloadReliableFrag => 5,
        PacketType::PayloadReliable => 6,
        PacketType::PayloadUnreliableFrag => 7,
        PacketType::PayloadUnreliable => 8,
        PacketType::Disconnect => 9,
    }
}

/// The packet type a wire octet stands for, if any.
pub open spec fn spec_packet_type_of_u8(value: u8) -> Option<PacketType> {
    match value {
        1u8 => Some(PacketType::ConnectionRequest),
        2u8 => Some(PacketType::Challenge),
        3u8 => Some(PacketType::ChallengeResponse),
        4u8 => Some(PacketType::ConnectionAccepted),
        5u8 => Some(PacketType::PayloadReliableFrag),
        6u8 => Some(PacketType::PayloadReliable),
        7u8 => Some(PacketType::PayloadUnreliableFrag),
        8u8 => Some(PacketType::PayloadUnreliable),
        9u8 => Some(PacketType::Disconnect),
        _ => None,
    }
}

impl PacketType {
    pub fn is_frag_variant(&self) -> (r: bool)
        ensures
            r == (*self == PacketType::PayloadReliableFrag || *self
                == PacketType::PayloadUnreliableFrag),
    {
        *self == PacketType::PayloadReliableFrag || *self == PacketType::PayloadUnreliableFrag
    }

    pub fn to_u8(self) -> (r: u8)
        ensures
            r == spec_packet_type_u8(self),
    {
        match self {
            PacketType::ConnectionRequest => 1,
            PacketType::Challenge => 2,
            PacketType::ChallengeResponse => 3,
            PacketType::ConnectionAccepted => 4,
            PacketType::PayloadReliableFrag => 5,
            PacketType::PayloadReliable => 6,
            PacketType::PayloadUnreliableFrag => 7,
            PacketType::PayloadUnreliable => 8,
            PacketType::Disconnect => 9,
        }
    }

    pub fn try_from(value: u8) -> (r: Result<PacketType, NetError>)
        ensures
            r == match spec_packet_type_of_u8(value) {
                Some(t) => Ok::<PacketType, NetError>(t),
                None => Err::<PacketType, NetError>(NetError::UnknownPacketType),
            },
    {
        match value {
            1 => Ok(PacketType::ConnectionRequest),
            2 => Ok(PacketType::Challenge),
            3 => Ok(PacketType::ChallengeResponse),
            4 => Ok(PacketType::ConnectionAccepted),
            5 => Ok(PacketType::PayloadReliableFrag),
            6 => Ok(PacketType::PayloadReliable),
            7 => Ok(PacketType::PayloadUnreliableFrag),
            8 => Ok(PacketType::PayloadUnreliable),
            9 => Ok(PacketType::Disconnect),
            _ => Err(NetError::UnknownPacketType),
        }
    }
}

/// The wire octet of every packet type decodes back to that type.
pub proof fn lemma_packet_type_round_trip(t: PacketType)
    ensures
        spec_packet_type_of_u8(spec_packet_type_u8(t)) == Some(t),
{
}

} // verus!
