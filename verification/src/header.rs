//! The on-wire header codec.
//!
//! A frame is `MAGIC[4] || base_header[17] || [frag_trailer[4]] || payload`.
//! The base header carries the sequence, the packet type octet, the session
//! key, and the piggybacked ack state; fragment variants append a four-byte
//! trailer naming the group, the chunk index and the chunk count.

use vstd::prelude::*;

use crate::error::NetError;
use crate::int_buffer::{
    lemma_u16_le_round_trip, lemma_u32_le_round_trip, lemma_u64_le_round_trip, spec_le_byte,
    spec_u16_le, spec_u32_le, spec_u64_le, IntBuffer,
};
use crate::{
    lemma_packet_type_round_trip, spec_magic, spec_packet_type_of_u8, spec_packet_type_u8, Bytes,
    PacketType,
};

verus! {

/// Size of the base header on the wire, after the magic.
pub const HEADER_SIZE: usize = 17;

/// Size of the header of a fragment variant: the base plus the trailer.
pub const FRAG_HEADER_SIZE: usize = 21;

#[derive(Debug, Clone, Copy, PartialEq, Eq, Structural)]
pub enum SendType {
    Reliable,
    Unreliable,
}

#[derive(Debug, Clone, Copy, PartialEq, Eq, Structural)]
pub struct Header {
    pub seq: u16,
    pub packet_type: PacketType,
    pub session_key: u64,
    pub ack: u16,
    pub ack_bits: u32,
    // optional fragment part
    pub fragment_group_id: u16,
    pub fragment_id: u8,
    pub fragment_size: u8,
}

/// The two bytes of `v`, little-endian.
pub open spec fn spec_le2(v: u16) -> Seq<u8> {
    seq![spec_le_byte(v as u64, 0), spec_le_byte(v as u64, 1)]
}

/// The four bytes of `v`, little-endian.
pub open spec fn spec_le4(v: u32) -> Seq<u8> {
    seq![
        spec_le_byte(v as u64, 0),
        spec_le_byte(v as u64, 1),
        spec_le_byte(v as u64, 2),
        spec_le_byte(v as u64, 3),
    ]
}

/// The eight bytes of `v`, little-endian.
pub open spec fn spec_le8(v: u64) -> Seq<u8> {
    seq![
        spec_le_byte(v, 0),
        spec_le_byte(v, 1),
        spec_le_byte(v, 2),
        spec_le_byte(v, 3),
        spec_le_byte(v, 4),
        spec_le_byte(v, 5),
        spec_le_byte(v, 6),
        spec_le_byte(v, 7),
    ]
}

impl Header {
    /// Whether the header's type carries the fragment trailer.
    pub open spec fn spec_is_frag(&self) -> bool {
        self.packet_type == PacketType::PayloadReliableFrag || self.packet_type
            == PacketType::PayloadUnreliableFrag
    }

    /// The header's size on the wire.
    pub open spec fn spec_size(&self) -> int {
        if self.spec_is_frag() {
            FRAG_HEADER_SIZE as int
        } else {
            HEADER_SIZE as int
        }
    }

    /// A header value that can appear on the wire: fragment variants carry
    /// a positive chunk count and an index below it, other variants leave
    /// the trailer fields at zero.
    pub open spec fn spec_legal(&self) -> bool {
        if self.spec_is_frag() {
            self.fragment_size > 0 && self.fragment_id < self.fragment_size
        } else {
            self.fragment_group_id == 0 && self.fragment_id == 0 && self.fragment_size == 0
        }
    }

    /// The exact bytes the header takes on the wire (after the magic).
    pub open spec fn spec_bytes(&self) -> Seq<u8> {
        let base = spec_le2(self.seq) + seq![spec_packet_type_u8(self.packet_type)] + spec_le8(
            self.session_key,
        ) + spec_le2(self.ack) + spec_le4(self.ack_bits);
        if self.spec_is_frag() {
            base + spec_le2(self.fragment_group_id) + seq![self.fragment_id, self.fragment_size]
        } else {
            base
        }
    }

    pub fn new(seq: u16, session_key: u64, send_type: SendType, frag: bool) -> (r: Self)
        ensures
            r.seq == seq,
            r.session_key == session_key,
            r.packet_type == (match send_type {
                SendType::Reliable => {
                    if frag {
                        PacketType::PayloadReliableFrag
                    } else {
                        PacketType::PayloadReliable
                    }
                },
                SendType::Unreliable => {
                    if frag {
                        PacketType::PayloadUnreliableFrag
                    } else {
                        PacketType::PayloadUnreliable
                    }
                },
            }),
            r.ack == 0 && r.ack_bits == 0,
            r.fragment_group_id == 0 && r.fragment_id == 0 && r.fragment_size == 0,
    {
        Self {
            seq,
            session_key,
            packet_type: match send_type {
                SendType::Reliable => {
                    if frag {
                        PacketType::PayloadReliableFrag
                    } else {
                        PacketType::PayloadReliable
                    }
                },
                SendType::Unreliable => {
                    if frag {
                        PacketType::PayloadUnreliableFrag
                    } else {
                        PacketType::PayloadUnreliable
                    }
                },
            },
            ack: 0,
            ack_bits: 0,
            fragment_group_id: 0,
            fragment_id: 0,
            fragment_size: 0,
        }
    }

    /// The header of a disconnect packet: no ack state, no trailer.
    pub open spec fn spec_disconnect_header(seq: u16, session_key: u64) -> Header {
        Header {
            seq,
            session_key,
            packet_type: PacketType::Disconnect,
            ack: 0,
            ack_bits: 0,
            fragment_group_id: 0,
            fragment_id: 0,
            fragment_size: 0,
        }
    }

    /// A bare disconnect header: no ack state, no trailer.
    pub fn new_disconnect(seq: u16, session_key: u64) -> (r: Self)
        ensures
            r == Header::spec_disconnect_header(seq, session_key),
            r.seq == seq,
            r.session_key == session_key,
            r.packet_type == PacketType::Disconnect,
            r.ack == 0 && r.ack_bits == 0,
            r.fragment_group_id == 0 && r.fragment_id == 0 && r.fragment_size == 0,
            r.spec_legal(),
    {
        Self {
            seq,
            session_key,
            packet_type: PacketType::Disconnect,
            ack: 0,
            ack_bits: 0,
            fragment_group_id: 0,
            fragment_id: 0,
            fragment_size: 0,
        }
    }

    /// Serializes the header at the cursor. Fails with `BufferTooSmall`
    /// when the buffer cannot hold the declared header size; nothing is
    /// written then.
    pub fn write(&self, data: &mut [u8], int_buffer: &mut IntBuffer) -> (r: Result<(), NetError>)
        ensures
            match r {
                Ok(_) => {
                    &&& old(data)@.len() >= old(int_buffer).index + self.spec_size()
                    &&& final(int_buffer).index == old(int_buffer).index + self.spec_size()
                    &&& final(data)@.len() == old(data)@.len()
                    &&& final(data)@ =~= old(data)@.subrange(0, old(int_buffer).index as int)
                        + self.spec_bytes() + old(data)@.subrange(
                        old(int_buffer).index + self.spec_size(),
                        old(data)@.len() as int,
                    )
                },
                Err(e) => {
                    &&& e == NetError::BufferTooSmall
                    &&& old(data)@.len() < old(int_buffer).index + self.spec_size()
                    &&& final(data)@ =~= old(data)@
                    &&& final(int_buffer).index == old(int_buffer).index
                },
            },
    {
        let size = self.get_header_size();
        if data.len() < size || data.len() - size < int_buffer.index {
            return Err(NetError::BufferTooSmall);
        }
        let ghost i0 = int_buffer.index as int;
        let ghost pre = data@;

        int_buffer.write_u16(self.seq, data);
        int_buffer.write_u8(self.packet_type.to_u8(), data);
        int_buffer.write_u64(self.session_key, data);
        int_buffer.write_u16(self.ack, data);
        int_buffer.write_u32(self.ack_bits, data);

        if self.packet_type.is_frag_variant() {
            int_buffer.write_u16(self.fragment_group_id, data);
            int_buffer.write_u8(self.fragment_id, data);
            int_buffer.write_u8(self.fragment_size, data);
        }

        proof {
            assert forall|j: int| 0 <= j < pre.len() implies data@[j] == (if i0 <= j < i0
                + self.spec_size() {
                self.spec_bytes()[j - i0]
            } else {
                pre[j]
            }) by {}
            assert(data@ =~= pre.subrange(0, i0) + self.spec_bytes() + pre.subrange(
                i0 + self.spec_size(),
                pre.len() as int,
            ));
        }

        Ok(())
    }

    /// Parses a header from the start of `data` (the magic already
    /// stripped). Fails with `MalformedHeader` when the buffer is shorter
    /// than the declared header size, and with `UnknownPacketType` when
    /// the type octet is not a recognized variant.
    pub fn read(data: &[u8]) -> (r: Result<Header, NetError>)
        ensures
            r == spec_read_header(data@),
    {
        if data.len() < HEADER_SIZE {
            return Err(NetError::MalformedHeader);
        }

        let mut int_buffer = IntBuffer::new_at(0);

        let seq = int_buffer.read_u16(data);
        let packet_type = match PacketType::try_from(int_buffer.read_u8(data)) {
            Ok(t) => t,
            Err(e) => {
                return Err(e);
            },
        };
        let session_key = int_buffer.read_u64(data);
        let ack = int_buffer.read_u16(data);
        let ack_bits = int_buffer.read_u32(data);

        let mut fragment_group_id: u16 = 0;
        let mut fragment_id: u8 = 0;
        let mut fragment_size: u8 = 0;

        if packet_type.is_frag_variant() {
            if data.len() - int_buffer.index < 4 {
                return Err(NetError::MalformedHeader);
            }

            fragment_group_id = int_buffer.read_u16(data);
            fragment_id = int_buffer.read_u8(data);
            fragment_size = int_buffer.read_u8(data);
        }

        Ok(
            Header {
                seq,
                packet_type,
                session_key,
                ack,
                ack_bits,
                fragment_group_id,
                fragment_id,
                fragment_size,
            },
        )
    }

    pub fn get_header_size(&self) -> (r: usize)
        ensures
            r == self.spec_size(),
    {
        if self.packet_type.is_frag_variant() {
            FRAG_HEADER_SIZE
        } else {
            HEADER_SIZE
        }
    }

    #[inline]
    pub fn max_header_size() -> (r: usize)
        ensures
            r == FRAG_HEADER_SIZE,
    {
        FRAG_HEADER_SIZE
    }

    /// Allocates and fills a whole frame: the magic, this header, and the
    /// payload bytes, in that order.
    pub fn create_packet(header: &Header, data: Option<&[u8]>) -> (r: Bytes)
        requires
            (match data {
                Some(d) => d@.len(),
                None => 0,
            }) + FRAG_HEADER_SIZE + 4 <= usize::MAX,
        ensures
            r@ =~= spec_magic() + header.spec_bytes() + (match data {
                Some(d) => d@,
                None => Seq::<u8>::empty(),
            }),
    {
        let data_len = if let Some(d) = data {
            d.len()
        } else {
            0
        };

        let header_size = header.get_header_size();
        let mut payload = crate::bytes_with_header(data_len + header_size);
        let mut buffer = IntBuffer::new_at(4);

        let write_result = header.write(&mut payload, &mut buffer);
        proof {
            assert(write_result is Ok);
        }

        if let Some(d) = data {
            buffer.write_slice(d, &mut payload);
        }

        payload
    }
}

/// What parsing a byte sequence as a header yields: the parsed value, or
/// the error naming what was wrong.
pub open spec fn spec_read_header(data: Seq<u8>) -> Result<Header, NetError> {
    if data.len() < 17 {
        Err(NetError::MalformedHeader)
    } else {
        match spec_packet_type_of_u8(data[2]) {
            None => Err(NetError::UnknownPacketType),
            Some(t) => {
                let is_frag = (t == PacketType::PayloadReliableFrag || t
                    == PacketType::PayloadUnreliableFrag);
                if is_frag && data.len() < 21 {
                    Err(NetError::MalformedHeader)
                } else {
                    Ok(
                        Header {
                            seq: spec_u16_le(data[0], data[1]),
                            packet_type: t,
                            session_key: spec_u64_le(
                                data[3],
                                data[4],
                                data[5],
                                data[6],
                                data[7],
                                data[8],
                                data[9],
                                data[10],
                            ),
                            ack: spec_u16_le(data[11], data[12]),
                            ack_bits: spec_u32_le(data[13], data[14], data[15], data[16]),
                            fragment_group_id: if is_frag {
                                spec_u16_le(data[17], data[18])
                            } else {
                                0
                            },
                            fragment_id: if is_frag {
                                data[19]
                            } else {
                                0
                            },
                            fragment_size: if is_frag {
                                data[20]
                            } else {
                                0
                            },
                        },
                    )
                }
            },
        }
    }
}

/// Header round trip: parsing the serialized bytes of any legal header
/// value gives that value back.
pub proof fn lemma_header_round_trip(h: Header)
    requires
        h.spec_legal(),
    ensures
        spec_read_header(h.spec_bytes()) == Ok::<Header, NetError>(h),
{
    let b = h.spec_bytes();
    assert(b[2] == spec_packet_type_u8(h.packet_type));
    lemma_packet_type_round_trip(h.packet_type);
    lemma_u16_le_round_trip(h.seq);
    lemma_u64_le_round_trip(h.session_key);
    lemma_u16_le_round_trip(h.ack);
    lemma_u32_le_round_trip(h.ack_bits);
    lemma_u16_le_round_trip(h.fragment_group_id);
    assert(spec_read_header(b) == Ok::<Header, NetError>(h));
}

} // verus!
