//! The per-peer protocol engine.
//!
//! A channel frames outbound application bytes, validates, deduplicates
//! and reassembles inbound datagrams, piggybacks ack state on every
//! outbound packet, and paces retransmission of unacked reliable
//! sequences.

use std::collections::VecDeque;

use vstd::prelude::*;

use crate::bitops::{lemma_set_bit32, lemma_zero_bits32, set_bit32, spec_bit32};
use crate::error::NetError;
use crate::events::UdpSendEvent;
use crate::fragmentation_manager::{
    lemma_assembled_parts, lemma_completed_group, FragmentationManager,
};
use crate::header::{spec_read_header, Header, SendType, FRAG_HEADER_SIZE, HEADER_SIZE};
use crate::int_buffer::IntBuffer;
use crate::packets::SendEvent;
use crate::send_buffer::{spec_acked_rel, SendBufferManager, SendPayload};
use crate::sequence::{spec_is_greater, spec_next, wrap_sub, Sequence};
use crate::window_buffer::WindowSequenceBuffer;
use crate::{bytes_with_header, Bytes, PacketType, BUFFER_SIZE, BUFFER_WINDOW_SIZE};

verus! {

#[derive(Debug, Clone, Copy, PartialEq, Eq, Structural)]
pub enum ChannelType {
    Client,
    Server,
}

#[derive(Debug)]
pub enum ReadPayload {
    /// One reliable or unreliable payload.
    Single(Bytes),
    /// A fully reassembled fragmented message, chunk by chunk.
    Parts(Vec<Bytes>),
    /// The peer asked to disconnect.
    Disconnect,
    /// Nothing to surface: an ack, a duplicate, or a chunk of a still
    /// incomplete group.
    Nothing,
}

pub struct Channel {
    pub mode: ChannelType,
    pub session_key: u64,
    /// Opaque token of the peer address; the socket layer resolves it.
    pub addr: u64,
    pub unreliable_seq: u16,
    pub local_seq: u16,
    pub remote_seq: u16,
    pub send_ack: bool,
    /// Buffer of sent packets.
    pub send_buffer: SendBufferManager,
    /// Tracks received packets, for suppressing duplicates and
    /// generating acks.
    pub received_packets: WindowSequenceBuffer<()>,
    pub reliable_fragmentation: FragmentationManager,
    pub unreliable_fragmentation: FragmentationManager,
}

impl Channel {
    pub open spec fn wf(&self) -> bool {
        &&& self.local_seq < 0xffff
        &&& self.unreliable_seq < 0xffff
        &&& self.send_buffer.wf()
        &&& self.received_packets.wf()
        &&& self.received_packets.buffer.partition_by == BUFFER_SIZE
        &&& self.received_packets.window_size == BUFFER_WINDOW_SIZE
        &&& self.reliable_fragmentation.wf()
        &&& self.unreliable_fragmentation.wf()
    }

    /// Whether the dedup window remembers sequence `s`.
    pub open spec fn spec_seen(&self, s: u16) -> bool {
        self.received_packets@[s as int % BUFFER_SIZE as int] is Some
    }

    /// The ack bitfield the channel currently generates: its first `k`
    /// bits, bit `i` standing for sequence `remote_seq - i - 1`.
    pub open spec fn spec_ack_field_upto(&self, k: int) -> u32
        decreases k,
    {
        if k <= 0 {
            0u32
        } else {
            let prev = self.spec_ack_field_upto(k - 1);
            if self.spec_seen(wrap_sub(self.remote_seq, k as u16)) {
                prev | (1u32 << ((k - 1) as u32))
            } else {
                prev
            }
        }
    }

    /// The full 32-bit ack field.
    pub open spec fn spec_ack_field(&self) -> u32 {
        self.spec_ack_field_upto(32)
    }

    pub fn new(addr: u64, session_key: u64, mode: ChannelType) -> (r: Self)
        ensures
            r.wf(),
            r.mode == mode,
            r.session_key == session_key,
            r.addr == addr,
            r.unreliable_seq == 0 && r.local_seq == 0 && r.remote_seq == 0,
            r.send_ack == false,
            forall|j: int| 0 <= j < BUFFER_SIZE ==> r.received_packets@[j] is None,
            forall|j: int| 0 <= j < BUFFER_SIZE ==> r.send_buffer.buffers@[j] is None,
            forall|j: int| 0 <= j < BUFFER_SIZE ==> r.send_buffer.received_acks@[j] is None,
    {
        Self {
            mode,
            session_key,
            addr,
            unreliable_seq: 0,
            local_seq: 0,
            remote_seq: 0,
            send_ack: false,
            send_buffer: SendBufferManager::new(),
            received_packets: WindowSequenceBuffer::with_size(BUFFER_SIZE, BUFFER_WINDOW_SIZE),
            reliable_fragmentation: FragmentationManager::new(),
            unreliable_fragmentation: FragmentationManager::new(),
        }
    }

    /// The piggybacked ack bitfield: bit `i` (least significant first)
    /// is set exactly when sequence `remote_seq - i - 1` has been
    /// received within the window.
    pub fn generate_ack_field(&self) -> (r: u32)
        requires
            self.wf(),
        ensures
            r == self.spec_ack_field(),
            forall|i: u32|
                i < 32 ==> #[trigger] spec_bit32(r, i) == self.spec_seen(
                    wrap_sub(self.remote_seq, (i + 1) as u16),
                ),
    {
        let mut ack_bitfield: u32 = 0;

        proof {
            lemma_zero_bits32();
        }

        let mut seq = self.remote_seq.wrapping_sub(1);
        let mut pos: usize = 0;
        while pos < 32
            invariant
                self.wf(),
                pos <= 32,
                seq == wrap_sub(self.remote_seq, (pos + 1) as u16),
                ack_bitfield == self.spec_ack_field_upto(pos as int),
            decreases 32 - pos,
        {
            if self.received_packets.is_some(seq) {
                ack_bitfield = set_bit32(ack_bitfield, pos, true);
            }
            proof {
                assert(self.spec_seen(wrap_sub(self.remote_seq, (pos + 1) as u16))
                    == (self.received_packets@[seq as int % BUFFER_SIZE as int] is Some));
            }
            seq = seq.wrapping_sub(1);
            proof {
                let rs = self.remote_seq;
                assert(seq == wrap_sub(rs, (pos + 2) as u16)) by (bit_vector)
                    requires
                        seq == wrap_sub(wrap_sub(rs, (pos + 1) as u16), 1),
                        pos < 32,
                ;
            }
            pos += 1;
        }

        proof {
            lemma_ack_field_bits(*self, 32);
        }

        ack_bitfield
    }

    /// The header a reliable send would carry right now.
    pub open spec fn spec_reliable_header(&self, frag: bool, group: u16, id: u8, size: u8) -> Header {
        Header {
            seq: self.local_seq,
            packet_type: if frag {
                PacketType::PayloadReliableFrag
            } else {
                PacketType::PayloadReliable
            },
            session_key: self.session_key,
            ack: self.remote_seq,
            ack_bits: self.spec_ack_field(),
            fragment_group_id: group,
            fragment_id: id,
            fragment_size: size,
        }
    }

    /// The header an unreliable send would carry right now.
    pub open spec fn spec_unreliable_header(&self, frag: bool, group: u16, id: u8, size: u8) -> Header {
        Header {
            seq: self.unreliable_seq,
            packet_type: if frag {
                PacketType::PayloadUnreliableFrag
            } else {
                PacketType::PayloadUnreliable
            },
            session_key: self.session_key,
            ack: self.remote_seq,
            ack_bits: self.spec_ack_field(),
            fragment_group_id: group,
            fragment_id: id,
            fragment_size: size,
        }
    }

    /// Whether an inbound reliable sequence counts as new: newer than
    /// anything seen, or absent from the dedup window.
    pub open spec fn spec_is_new(&self, seq: u16) -> bool {
        spec_is_greater(seq, self.remote_seq) || !self.spec_seen(seq)
    }

    /// Refreshes the piggybacked ack fields of a header to the channel's
    /// current state.
    fn write_header_ack_fields(&self, header: &mut Header)
        requires
            self.wf(),
        ensures
            *final(header) == (Header {
                ack: self.remote_seq,
                ack_bits: self.spec_ack_field(),
                ..*old(header)
            }),
    {
        header.ack = self.remote_seq;
        header.ack_bits = self.generate_ack_field();
    }

    /// Writes a fresh unreliable header into the framed buffer and
    /// advances the unreliable sequence. Fails with `BufferTooSmall`,
    /// changing nothing, when the buffer cannot hold the header.
    pub fn create_unreliable_packet(
        &mut self,
        buffer: &mut Bytes,
        frag: bool,
        fragment_group_id: u16,
        fragment_id: u8,
        fragment_size: u8,
    ) -> (r: Result<(), NetError>)
        requires
            old(self).wf(),
        ensures
            final(self).wf(),
            *final(self) == (Channel { unreliable_seq: final(self).unreliable_seq, ..*old(self) }),
            ({
                let h = old(self).spec_unreliable_header(
                    frag,
                    fragment_group_id,
                    fragment_id,
                    fragment_size,
                );
                match r {
                    Ok(_) => {
                        &&& old(buffer)@.len() >= 4 + h.spec_size()
                        &&& final(buffer)@ =~= spec_spliced(old(buffer)@, h)
                        &&& final(self).unreliable_seq == spec_next(old(self).unreliable_seq)
                    },
                    Err(e) => {
                        &&& e == NetError::BufferTooSmall
                        &&& old(buffer)@.len() < 4 + h.spec_size()
                        &&& final(buffer)@ =~= old(buffer)@
                        &&& final(self).unreliable_seq == old(self).unreliable_seq
                    },
                }
            }),
    {
        let mut header = Header::new(
            self.unreliable_seq,
            self.session_key,
            SendType::Unreliable,
            frag,
        );
        header.fragment_group_id = fragment_group_id;
        header.fragment_id = fragment_id;
        header.fragment_size = fragment_size;

        self.write_header_ack_fields(&mut header);

        let mut int_buffer = IntBuffer::new_at(4);
        match header.write(buffer.as_mut_slice(), &mut int_buffer) {
            Ok(_) => {},
            Err(e) => {
                return Err(e);
            },
        }

        Sequence::increment(&mut self.unreliable_seq);

        Ok(())
    }

    /// Writes a fresh reliable header into the framed buffer, installs
    /// the payload in the send buffer under the assigned sequence, and
    /// advances the reliable sequence. Fails with `BufferTooSmall`,
    /// changing nothing, when the buffer cannot hold the header.
    pub fn create_send_buffer(
        &mut self,
        buffer: &mut Bytes,
        frag: bool,
        fragment_group_id: u16,
        fragment_id: u8,
        fragment_size: u8,
        now_ms: u64,
    ) -> (r: Result<u16, NetError>)
        requires
            old(self).wf(),
        ensures
            final(self).wf(),
            *final(self) == (Channel {
                local_seq: final(self).local_seq,
                send_buffer: final(self).send_buffer,
                ..*old(self)
            }),
            ({
                let h = old(self).spec_reliable_header(
                    frag,
                    fragment_group_id,
                    fragment_id,
                    fragment_size,
                );
                match r {
                    Ok(seq) => {
                        &&& seq == old(self).local_seq
                        &&& old(buffer)@.len() >= 4 + h.spec_size()
                        &&& final(buffer)@ =~= spec_spliced(old(buffer)@, h)
                        &&& final(self).local_seq == spec_next(old(self).local_seq)
                        &&& ({
                            let entry = final(self).send_buffer.spec_entry_of(seq);
                            &&& entry matches Some(b)
                            &&& b.payload.buffer@ == old(buffer)@.subrange(
                                4 + h.spec_size(),
                                old(buffer)@.len() as int,
                            )
                            &&& b.payload.original_header == h
                            &&& b.sent_at is None
                        })
                        &&& (final(self).send_buffer.spec_ack_of(seq) matches Some(ra)
                            && ra.acked == false && ra.packet_created_at == now_ms)
                        &&& (forall|j: int|
                            0 <= j < BUFFER_SIZE && j != crate::send_buffer::spec_slot(seq)
                                ==> final(self).send_buffer.buffers@[j] == old(self).send_buffer.buffers@[j] && final(self).send_buffer.received_acks@[j]
                                == old(self).send_buffer.received_acks@[j])
                        &&& final(self).send_buffer.rtt_tracker == old(self).send_buffer.rtt_tracker
                    },
                    Err(e) => {
                        &&& e == NetError::BufferTooSmall
                        &&& old(buffer)@.len() < 4 + h.spec_size()
                        &&& final(buffer)@ =~= old(buffer)@
                        &&& *final(self) == *old(self)
                    },
                }
            }),
    {
        let mut header = Header::new(self.local_seq, self.session_key, SendType::Reliable, frag);
        header.fragment_group_id = fragment_group_id;
        header.fragment_id = fragment_id;
        header.fragment_size = fragment_size;

        self.write_header_ack_fields(&mut header);

        let mut int_buffer = IntBuffer::new_at(4);
        match header.write(buffer.as_mut_slice(), &mut int_buffer) {
            Ok(_) => {},
            Err(e) => {
                return Err(e);
            },
        }

        let header_size = header.get_header_size();
        let seq = self.local_seq;
        let payload_start = 4 + header_size;
        let payload: &[u8] = &buffer.as_slice()[payload_start..buffer.len()];
        self.send_buffer.push_send_buffer(seq, payload, &header, now_ms);

        Sequence::increment(&mut self.local_seq);

        Ok(seq)
    }

    /// Hands one framed, tracked datagram to the socket queue; any
    /// pending empty ack rides along implicitly.
    fn send_tracking(&mut self, seq: u16, buffer: Bytes, send_queue: &mut VecDeque<UdpSendEvent>)
        ensures
            *final(self) == (Channel { send_ack: false, ..*old(self) }),
            final(send_queue)@ =~= seq![
                (match old(self).mode {
                    ChannelType::Client => UdpSendEvent::ClientTracking(buffer, seq),
                    ChannelType::Server => UdpSendEvent::ServerTracking(buffer, old(self).addr, seq),
                }),
            ] + old(send_queue)@,
    {
        match self.mode {
            ChannelType::Client => send_queue.push_front(UdpSendEvent::ClientTracking(buffer, seq)),
            ChannelType::Server => send_queue.push_front(
                UdpSendEvent::ServerTracking(buffer, self.addr, seq),
            ),
        }
        self.send_ack = false;
    }

    /// Hands one framed, untracked datagram to the socket queue.
    fn send_non_tracking(&mut self, buffer: Bytes, send_queue: &mut VecDeque<UdpSendEvent>)
        ensures
            *final(self) == (Channel { send_ack: false, ..*old(self) }),
            final(send_queue)@ =~= seq![
                (match old(self).mode {
                    ChannelType::Client => UdpSendEvent::Client(buffer),
                    ChannelType::Server => UdpSendEvent::Server(buffer, old(self).addr),
                }),
            ] + old(send_queue)@,
    {
        match self.mode {
            ChannelType::Client => send_queue.push_front(UdpSendEvent::Client(buffer)),
            ChannelType::Server => send_queue.push_front(UdpSendEvent::Server(buffer, self.addr)),
        }
        self.send_ack = false;
    }

    /// Emits one empty ack datagram carrying only the current ack state.
    pub fn send_empty_ack(&mut self, send_queue: &mut VecDeque<UdpSendEvent>) -> (r: Result<
        (),
        NetError,
    >)
        requires
            old(self).wf(),
        ensures
            final(self).wf(),
            r is Ok,
            *final(self) == (Channel {
                unreliable_seq: spec_next(old(self).unreliable_seq),
                send_ack: false,
                ..*old(self)
            }),
            final(send_queue)@.len() == old(send_queue)@.len() + 1,
            final(send_queue)@.subrange(1, final(send_queue)@.len() as int) =~= old(send_queue)@,
            spec_empty_ack_event_ok(*old(self), final(send_queue)@[0]),
    {
        let mut buffer = bytes_with_header(HEADER_SIZE);

        match self.create_unreliable_packet(&mut buffer, false, 0, 0, 0) {
            Ok(_) => {},
            Err(_) => {
                proof {
                    assert(false);
                }
            },
        }

        proof {
            assert(buffer@ =~= crate::spec_magic() + old(self).spec_unreliable_header(
                false,
                0,
                0,
                0,
            ).spec_bytes());
        }
        self.send_non_tracking(buffer, send_queue);

        Ok(())
    }

    /// Feeds an inbound ack into the send buffer.
    pub fn mark_acked_packets(&mut self, ack: u16, ack_bitfield: u32, received_at_ms: u64)
        requires
            old(self).wf(),
        ensures
            final(self).wf(),
            *final(self) == (Channel { send_buffer: final(self).send_buffer, ..*old(self) }),
            spec_acked_rel(
                old(self).send_buffer,
                final(self).send_buffer,
                ack,
                ack_bitfield,
                received_at_ms,
            ),
    {
        self.send_buffer.mark_acked_packets(ack, ack_bitfield, received_at_ms)
    }

    /// Notes an inbound sequence: a strictly newer one becomes the new
    /// high-water mark.
    fn update_remote_seq(&mut self, remote_seq: u16) -> (r: bool)
        ensures
            r == spec_is_greater(remote_seq, old(self).remote_seq),
            *final(self) == (Channel {
                remote_seq: if r {
                    remote_seq
                } else {
                    old(self).remote_seq
                },
                ..*old(self)
            }),
    {
        if Sequence::is_less_than(self.remote_seq, remote_seq) {
            // update to the new remote sequence
            self.remote_seq = remote_seq;

            return true;
        }

        false
    }

    /// Takes one inbound datagram (magic already stripped) through the
    /// engine: parse, session-key check, ack bookkeeping, duplicate
    /// suppression, and reassembly. What comes back is what the
    /// application should see.
    ///
    /// A datagram whose parsed session key is not the channel's is
    /// rejected with `SessionKeyMismatch` and changes nothing. A
    /// reliable payload always refreshes the ack state and always
    /// leaves an empty ack owed, even when it is a duplicate; only a
    /// new sequence can surface data. Unreliable payloads skip the
    /// dedup window and owe no ack.
    pub fn read(&mut self, buffer: Bytes, received_at_ms: u64) -> (r: Result<
        ReadPayload,
        NetError,
    >)
        requires
            old(self).wf(),
        ensures
            final(self).wf(),
            final(self).mode == old(self).mode,
            final(self).session_key == old(self).session_key,
            final(self).addr == old(self).addr,
            final(self).local_seq == old(self).local_seq,
            final(self).unreliable_seq == old(self).unreliable_seq,
            match spec_read_header(buffer@) {
                Err(e) => r == Err::<ReadPayload, NetError>(e) && *final(self) == *old(self),
                Ok(h) => {
                    if h.session_key != old(self).session_key {
                        &&& r == Err::<ReadPayload, NetError>(NetError::SessionKeyMismatch)
                        &&& *final(self) == *old(self)
                    } else if h.packet_type == PacketType::Disconnect {
                        &&& (r matches Ok(p) && p is Disconnect)
                        &&& *final(self) == *old(self)
                    } else if h.packet_type == PacketType::PayloadReliable || h.packet_type
                        == PacketType::PayloadReliableFrag {
                        &&& final(self).send_ack == true
                        &&& spec_acked_rel(
                            old(self).send_buffer,
                            final(self).send_buffer,
                            h.ack,
                            h.ack_bits,
                            received_at_ms,
                        )
                        &&& final(self).remote_seq == (if spec_is_greater(
                            h.seq,
                            old(self).remote_seq,
                        ) {
                            h.seq
                        } else {
                            old(self).remote_seq
                        })
                        &&& (!old(self).spec_is_new(h.seq) ==> (r matches Ok(p) && p is Nothing)
                            && final(self).received_packets == old(self).received_packets
                            && final(self).reliable_fragmentation == old(self).reliable_fragmentation && final(self).unreliable_fragmentation == old(self).unreliable_fragmentation)
                        &&& (old(self).spec_is_new(h.seq) ==> final(self).spec_seen(h.seq))
                        &&& (old(self).spec_is_new(h.seq) && h.packet_type
                            == PacketType::PayloadReliable ==> (if buffer@.len() > 17 {
                            r matches Ok(p) && p matches ReadPayload::Single(pl) && pl@
                                == buffer@.subrange(17, buffer@.len() as int)
                        } else {
                            r matches Ok(p) && p is Nothing
                        }) && final(self).reliable_fragmentation == old(self).reliable_fragmentation)
                        &&& (h.packet_type == PacketType::PayloadReliableFrag ==> final(self).unreliable_fragmentation == old(self).unreliable_fragmentation && final(self).reliable_fragmentation.group_seq == old(self).reliable_fragmentation.group_seq)
                        &&& (h.packet_type == PacketType::PayloadReliable ==> final(self).unreliable_fragmentation == old(self).unreliable_fragmentation)
                        &&& (old(self).spec_is_new(h.seq) && h.packet_type
                            == PacketType::PayloadReliableFrag && buffer@.len() == 21 ==> (
                        r matches Ok(p) && p is Nothing) && final(self).reliable_fragmentation
                            == old(self).reliable_fragmentation)
                        &&& (old(self).spec_is_new(h.seq) && h.packet_type
                            == PacketType::PayloadReliableFrag && buffer@.len() > 21 ==> ({
                            let pv = buffer@.subrange(21, buffer@.len() as int);
                            let oc = FragmentationManager::spec_insert_outcome(
                                old(self).reliable_fragmentation,
                                h,
                                received_at_ms,
                            );
                            &&& (oc == Ok::<bool, NetError>(false) ==> (r matches Ok(p) && p
                                is Nothing) && FragmentationManager::spec_insert_rel(
                                old(self).reliable_fragmentation,
                                final(self).reliable_fragmentation,
                                h,
                                pv,
                                received_at_ms,
                            ))
                            &&& (oc matches Err(e2) ==> r == Err::<ReadPayload, NetError>(e2)
                                && FragmentationManager::spec_insert_rel(
                                old(self).reliable_fragmentation,
                                final(self).reliable_fragmentation,
                                h,
                                pv,
                                received_at_ms,
                            ))
                            &&& (oc == Ok::<bool, NetError>(true) ==> (r matches Ok(p) && p
                                matches ReadPayload::Parts(parts)
                                && FragmentationManager::spec_completed_parts(
                                old(self).reliable_fragmentation,
                                h,
                                pv,
                                parts@,
                            )) && final(self).reliable_fragmentation.spec_group_at(
                                h.fragment_group_id,
                            ) is None)
                        }))
                    } else if h.packet_type == PacketType::PayloadUnreliable || h.packet_type
                        == PacketType::PayloadUnreliableFrag {
                        &&& final(self).send_ack == old(self).send_ack
                        &&& spec_acked_rel(
                            old(self).send_buffer,
                            final(self).send_buffer,
                            h.ack,
                            h.ack_bits,
                            received_at_ms,
                        )
                        &&& final(self).remote_seq == old(self).remote_seq
                        &&& final(self).received_packets == old(self).received_packets
                        &&& final(self).reliable_fragmentation == old(self).reliable_fragmentation
                        &&& (h.packet_type == PacketType::PayloadUnreliable ==> (if buffer@.len()
                            > 17 {
                            r matches Ok(p) && p matches ReadPayload::Single(pl) && pl@
                                == buffer@.subrange(17, buffer@.len() as int)
                        } else {
                            r matches Ok(p) && p is Nothing
                        }) && final(self).unreliable_fragmentation == old(self).unreliable_fragmentation)
                        &&& (h.packet_type == PacketType::PayloadUnreliableFrag ==> final(self).unreliable_fragmentation.group_seq == old(self).unreliable_fragmentation.group_seq)
                        &&& (h.packet_type == PacketType::PayloadUnreliableFrag && buffer@.len()
                            == 21 ==> (r matches Ok(p) && p is Nothing) && final(self).unreliable_fragmentation == old(self).unreliable_fragmentation)
                        &&& (h.packet_type == PacketType::PayloadUnreliableFrag && buffer@.len()
                            > 21 ==> ({
                            let pv = buffer@.subrange(21, buffer@.len() as int);
                            let oc = FragmentationManager::spec_insert_outcome(
                                old(self).unreliable_fragmentation,
                                h,
                                received_at_ms,
                            );
                            &&& (oc == Ok::<bool, NetError>(false) ==> (r matches Ok(p) && p
                                is Nothing) && FragmentationManager::spec_insert_rel(
                                old(self).unreliable_fragmentation,
                                final(self).unreliable_fragmentation,
                                h,
                                pv,
                                received_at_ms,
                            ))
                            &&& (oc matches Err(e2) ==> r == Err::<ReadPayload, NetError>(e2)
                                && FragmentationManager::spec_insert_rel(
                                old(self).unreliable_fragmentation,
                                final(self).unreliable_fragmentation,
                                h,
                                pv,
                                received_at_ms,
                            ))
                            &&& (oc == Ok::<bool, NetError>(true) ==> (r matches Ok(p) && p
                                matches ReadPayload::Parts(parts)
                                && FragmentationManager::spec_completed_parts(
                                old(self).unreliable_fragmentation,
                                h,
                                pv,
                                parts@,
                            )) && final(self).unreliable_fragmentation.spec_group_at(
                                h.fragment_group_id,
                            ) is None)
                        }))
                    } else {
                        &&& (r matches Ok(p) && p is Nothing)
                        &&& *final(self) == *old(self)
                    }
                },
            },
    {
        let header = match Header::read(buffer.as_slice()) {
            Ok(h) => h,
            Err(e) => {
                return Err(e);
            },
        };

        // validate session key
        if header.session_key != self.session_key {
            return Err(NetError::SessionKeyMismatch);
        }

        // the peer requested a disconnect
        if header.packet_type == PacketType::Disconnect {
            return Ok(ReadPayload::Disconnect);
        }

        // strip the header, keeping the payload
        let header_size = header.get_header_size();
        let payload: Bytes = vstd::slice::slice_to_vec(
            &buffer.as_slice()[header_size..buffer.len()],
        );

        match header.packet_type {
            PacketType::PayloadReliable | PacketType::PayloadReliableFrag => {
                // always owe an ack, even for a duplicate
                self.send_ack = true;
                let mut new_packet = false;

                // always mark the acks
                self.mark_acked_packets(header.ack, header.ack_bits, received_at_ms);

                // if the sequence was not registered yet it is a new packet
                if self.update_remote_seq(header.seq) {
                    new_packet = true;
                } else if self.received_packets.is_none(header.seq) {
                    new_packet = true;
                }

                if new_packet {
                    self.received_packets.insert(header.seq, ());

                    if payload.len() > 0 {
                        if header.packet_type.is_frag_variant() {
                            let ghost pv = payload@;
                            let ghost mgr0 = self.reliable_fragmentation;
                            let done = match self.reliable_fragmentation.insert_fragment(
                                &header,
                                payload,
                                received_at_ms,
                            ) {
                                Ok(done) => done,
                                Err(e) => {
                                    return Err(e);
                                },
                            };
                            let ghost mgr1 = self.reliable_fragmentation;
                            if done {
                                proof {
                                    // the group the chunk completed is
                                    // present, complete and unexpired
                                    lemma_completed_group(mgr0, mgr1, header, pv, received_at_ms);
                                }
                                match self.reliable_fragmentation.assemble(
                                    header.fragment_group_id,
                                    received_at_ms,
                                ) {
                                    Ok(parts) => {
                                        proof {
                                            lemma_assembled_parts(
                                                mgr0,
                                                mgr1,
                                                header,
                                                pv,
                                                received_at_ms,
                                                parts@,
                                            );
                                        }
                                        return Ok(ReadPayload::Parts(parts));
                                    },
                                    Err(_) => {
                                        proof {
                                            assert(false);
                                        }
                                        return Err(NetError::FragmentIncomplete);
                                    },
                                }
                            }
                        } else {
                            return Ok(ReadPayload::Single(payload));
                        }
                    }
                }

                Ok(ReadPayload::Nothing)
            },
            PacketType::PayloadUnreliable | PacketType::PayloadUnreliableFrag => {
                self.mark_acked_packets(header.ack, header.ack_bits, received_at_ms);

                if payload.len() > 0 {
                    if header.packet_type.is_frag_variant() {
                        let ghost pv = payload@;
                        let ghost mgr0 = self.unreliable_fragmentation;
                        let done = match self.unreliable_fragmentation.insert_fragment(
                            &header,
                            payload,
                            received_at_ms,
                        ) {
                            Ok(done) => done,
                            Err(e) => {
                                return Err(e);
                            },
                        };
                        let ghost mgr1 = self.unreliable_fragmentation;
                        if done {
                            proof {
                                // the group the chunk completed is
                                // present, complete and unexpired
                                lemma_completed_group(mgr0, mgr1, header, pv, received_at_ms);
                            }
                            match self.unreliable_fragmentation.assemble(
                                header.fragment_group_id,
                                received_at_ms,
                            ) {
                                Ok(parts) => {
                                    proof {
                                        lemma_assembled_parts(
                                            mgr0,
                                            mgr1,
                                            header,
                                            pv,
                                            received_at_ms,
                                            parts@,
                                        );
                                    }
                                    return Ok(ReadPayload::Parts(parts));
                                },
                                Err(_) => {
                                    proof {
                                        assert(false);
                                    }
                                    return Err(NetError::FragmentIncomplete);
                                },
                            }
                        }
                    } else {
                        return Ok(ReadPayload::Single(payload));
                    }
                }

                Ok(ReadPayload::Nothing)
            },
            _ => Ok(ReadPayload::Nothing),
        }
    }

    /// One tick: re-frames and re-emits every sequence the retransmit
    /// walk surfaces, each behind a header refreshed with the current
    /// ack state, and sends one empty ack when one is owed and no
    /// retransmit carried it. The pending-ack flag is always clear
    /// afterwards.
    pub fn update(
        &mut self,
        marked_packets: &mut Vec<SendPayload>,
        send_queue: &mut VecDeque<UdpSendEvent>,
        now_ms: u64,
    ) -> (r: Result<(), NetError>)
        requires
            old(self).wf(),
            old(marked_packets)@.len() == 0,
        ensures
            final(self).wf(),
            r is Ok,
            final(marked_packets)@.len() == 0,
            spec_tick_rel(*old(self), *final(self), now_ms),
            spec_tick_queue_rel(*old(self), old(send_queue)@, final(send_queue)@, now_ms),
    {
        let ghost pre = *self;
        let ghost q0 = send_queue@;

        let local_seq = self.local_seq;
        self.send_buffer.get_redelivery_packet(local_seq, marked_packets, now_ms);

        let ghost lst = pre.send_buffer.spec_redelivery(
            pre.local_seq,
            now_ms,
            BUFFER_WINDOW_SIZE as int,
        );
        let ghost mid = *self;

        proof {
            crate::send_buffer::lemma_redelivery_items_bounded(
                pre.send_buffer,
                pre.local_seq,
                now_ms,
                BUFFER_WINDOW_SIZE as int,
            );
            lemma_ack_field_congruent(pre, mid, 32);
        }

        while marked_packets.len() > 0
            invariant
                self.wf(),
                pre.wf(),
                mid.wf(),
                mid == (Channel { send_ack: mid.send_ack, send_buffer: mid.send_buffer, ..pre }),
                q0 == old(send_queue)@,
                lst == pre.send_buffer.spec_redelivery(
                    pre.local_seq,
                    now_ms,
                    BUFFER_WINDOW_SIZE as int,
                ),
                marked_packets@.len() <= lst.len(),
                forall|t: int|
                    0 <= t < marked_packets@.len() ==> (#[trigger] marked_packets@[t]).buffer@
                        == lst[t].0 && marked_packets@[t].original_header == lst[t].1,
                forall|t: int|
                    0 <= t < lst.len() ==> (#[trigger] lst[t]).0.len() + 4 + lst[t].1.spec_size()
                        <= usize::MAX,
                *self == (Channel {
                    send_ack: if marked_packets@.len() < lst.len() {
                        false
                    } else {
                        mid.send_ack
                    },
                    ..mid
                }),
                send_queue@.len() == q0.len() + (lst.len() - marked_packets@.len()),
                send_queue@.subrange(
                    lst.len() - marked_packets@.len() as int,
                    send_queue@.len() as int,
                ) =~= q0,
                forall|t: int|
                    marked_packets@.len() <= t < lst.len() ==> #[trigger] spec_retransmit_event_ok(
                        pre,
                        lst[t].0,
                        lst[t].1,
                        send_queue@[t - marked_packets@.len()],
                    ),
            decreases marked_packets@.len(),
        {
            let ghost k = marked_packets@.len() as int;
            let packet = match marked_packets.pop() {
                Some(p) => p,
                None => {
                    proof {
                        assert(false);
                    }
                    return Ok(());
                },
            };
            proof {
                assert(packet.buffer@ == lst[k - 1].0);
                assert(packet.original_header == lst[k - 1].1);
            }

            let mut header = packet.original_header;
            self.write_header_ack_fields(&mut header);
            proof {
                lemma_ack_field_congruent(pre, *self, 32);
                assert(header == (Header {
                    ack: pre.remote_seq,
                    ack_bits: pre.spec_ack_field(),
                    ..packet.original_header
                }));
            }

            let header_size = header.get_header_size();
            let mut buffer = crate::bytes_with_header(header_size + packet.buffer.len());

            let mut int_buffer = IntBuffer::new_at(4);
            match header.write(buffer.as_mut_slice(), &mut int_buffer) {
                Ok(_) => {},
                Err(_) => {
                    proof {
                        assert(false);
                    }
                },
            }
            int_buffer.write_slice(packet.buffer.as_slice(), &mut buffer);

            let ghost sent_view = buffer@;
            proof {
                assert(sent_view =~= crate::spec_magic() + header.spec_bytes()
                    + packet.buffer@);
            }

            let ghost qmid = send_queue@;
            self.send_tracking(header.seq, buffer, send_queue);
            proof {
                lemma_ack_field_congruent(pre, *self, 32);
                assert(spec_retransmit_event_ok(pre, lst[k - 1].0, lst[k - 1].1, send_queue@[0]));
                assert forall|t: int|
                    k - 1 <= t < lst.len() implies #[trigger] spec_retransmit_event_ok(
                    pre,
                    lst[t].0,
                    lst[t].1,
                    send_queue@[t - (k - 1)],
                ) by {
                    if t >= k {
                        assert(send_queue@[t - (k - 1)] == qmid[t - k]);
                    }
                }
            }
        }

        proof {
            if lst.len() > 0 {
                assert forall|t: int|
                    0 <= t < lst.len() implies #[trigger] spec_retransmit_event_ok(
                    pre,
                    lst[t].0,
                    lst[t].1,
                    send_queue@[t],
                ) by {
                    assert(spec_retransmit_event_ok(
                        pre,
                        lst[t].0,
                        lst[t].1,
                        send_queue@[t - marked_packets@.len()],
                    ));
                }
            }
        }

        if self.send_ack {
            let ghost before_ack = *self;
            proof {
                lemma_ack_field_congruent(pre, before_ack, 32);
            }
            match self.send_empty_ack(send_queue) {
                Ok(_) => {},
                Err(_) => {
                    proof {
                        assert(false);
                    }
                },
            }
            proof {
                assert(before_ack.spec_unreliable_header(false, 0, 0, 0)
                    == pre.spec_unreliable_header(false, 0, 0, 0));
            }
        }

        Ok(())
    }

    /// The header chunk `t` of a fragmented send carries, as computed
    /// from the channel state the send started in.
    pub open spec fn spec_frag_header(
        &self,
        reliable: bool,
        group: u16,
        t: int,
        count: u8,
    ) -> Header {
        Header {
            seq: spec_next_n(
                if reliable {
                    self.local_seq
                } else {
                    self.unreliable_seq
                },
                t,
            ),
            packet_type: if reliable {
                PacketType::PayloadReliableFrag
            } else {
                PacketType::PayloadUnreliableFrag
            },
            session_key: self.session_key,
            ack: self.remote_seq,
            ack_bits: self.spec_ack_field(),
            fragment_group_id: group,
            fragment_id: t as u8,
            fragment_size: count,
        }
    }

    /// Frames and hands off one application send: a single datagram, a
    /// run of fragment datagrams, or the three-fold disconnect burst.
    /// Reliable datagrams are installed in the send buffer under their
    /// assigned sequences; every emitted datagram carries the current
    /// ack state, and emitting anything clears the pending empty-ack
    /// flag.
    pub fn send_event(
        &mut self,
        send_event: SendEvent,
        send_queue: &mut VecDeque<UdpSendEvent>,
        now_ms: u64,
    ) -> (r: Result<(), NetError>)
        requires
            old(self).wf(),
        ensures
            final(self).wf(),
            match send_event {
                SendEvent::Single(buffer, st) => match st {
                    SendType::Reliable => {
                        let h = old(self).spec_reliable_header(false, 0, 0, 0);
                        if buffer@.len() >= 4 + HEADER_SIZE {
                            &&& r is Ok
                            &&& final(send_queue)@.len() == old(send_queue)@.len() + 1
                            &&& final(send_queue)@.subrange(1, final(send_queue)@.len() as int)
                                =~= old(send_queue)@
                            &&& (match old(self).mode {
                                ChannelType::Client => final(send_queue)@[0] matches
                                    UdpSendEvent::ClientTracking(b, sq) && b@ == spec_spliced(
                                    buffer@,
                                    h,
                                ) && sq == old(self).local_seq,
                                ChannelType::Server => final(send_queue)@[0] matches
                                    UdpSendEvent::ServerTracking(b, a, sq) && b@ == spec_spliced(
                                    buffer@,
                                    h,
                                ) && a == old(self).addr && sq == old(self).local_seq,
                            })
                            &&& *final(self) == (Channel {
                                local_seq: spec_next(old(self).local_seq),
                                send_ack: false,
                                send_buffer: final(self).send_buffer,
                                ..*old(self)
                            })
                            &&& ({
                                let entry = final(self).send_buffer.spec_entry_of(
                                    old(self).local_seq,
                                );
                                &&& entry matches Some(b)
                                &&& b.payload.buffer@ == buffer@.subrange(
                                    4 + HEADER_SIZE as int,
                                    buffer@.len() as int,
                                )
                                &&& b.payload.original_header == h
                                &&& b.sent_at is None
                            })
                        } else {
                            &&& r == Err::<(), NetError>(NetError::BufferTooSmall)
                            &&& *final(self) == *old(self)
                            &&& final(send_queue)@ =~= old(send_queue)@
                        }
                    },
                    SendType::Unreliable => {
                        let h = old(self).spec_unreliable_header(false, 0, 0, 0);
                        if buffer@.len() >= 4 + HEADER_SIZE {
                            &&& r is Ok
                            &&& final(send_queue)@.len() == old(send_queue)@.len() + 1
                            &&& final(send_queue)@.subrange(1, final(send_queue)@.len() as int)
                                =~= old(send_queue)@
                            &&& (match old(self).mode {
                                ChannelType::Client => final(send_queue)@[0] matches
                                    UdpSendEvent::Client(b) && b@ == spec_spliced(buffer@, h),
                                ChannelType::Server => final(send_queue)@[0] matches
                                    UdpSendEvent::Server(b, a) && b@ == spec_spliced(buffer@, h)
                                    && a == old(self).addr,
                            })
                            &&& *final(self) == (Channel {
                                unreliable_seq: spec_next(old(self).unreliable_seq),
                                send_ack: false,
                                ..*old(self)
                            })
                        } else {
                            &&& r == Err::<(), NetError>(NetError::BufferTooSmall)
                            &&& *final(self) == *old(self)
                            &&& final(send_queue)@ =~= old(send_queue)@
                        }
                    },
                },
                SendEvent::Fragmented(frags, st) => {
                    let n = frags@.len() as int;
                    if (exists|i: int|
                        0 <= i < n && (#[trigger] frags@[i])@.len() < 4 + FRAG_HEADER_SIZE) {
                        &&& r == Err::<(), NetError>(NetError::BufferTooSmall)
                        &&& *final(self) == *old(self)
                        &&& final(send_queue)@ =~= old(send_queue)@
                    } else if n > 255 {
                        &&& r == Err::<(), NetError>(NetError::TooManyFragments)
                        &&& *final(self) == *old(self)
                        &&& final(send_queue)@ =~= old(send_queue)@
                    } else {
                        let reliable = st == SendType::Reliable;
                        let group = if reliable {
                            old(self).reliable_fragmentation.group_seq
                        } else {
                            old(self).unreliable_fragmentation.group_seq
                        };
                        &&& r is Ok
                        &&& final(send_queue)@.len() == old(send_queue)@.len() + n
                        &&& final(send_queue)@.subrange(n, final(send_queue)@.len() as int)
                            =~= old(send_queue)@
                        &&& (forall|t: int|
                            0 <= t < n ==> #[trigger] spec_chunk_event_ok(
                                *old(self),
                                reliable,
                                group,
                                n as u8,
                                frags@,
                                t,
                                final(send_queue)@[n - 1 - t],
                            ))
                        &&& (reliable ==> {
                            &&& final(self).local_seq == spec_next_n(old(self).local_seq, n)
                            &&& final(self).unreliable_seq == old(self).unreliable_seq
                            &&& final(self).reliable_fragmentation.group_seq == spec_next(
                                old(self).reliable_fragmentation.group_seq,
                            )
                            &&& final(self).reliable_fragmentation.fragments == old(self).reliable_fragmentation.fragments
                            &&& final(self).unreliable_fragmentation == old(self).unreliable_fragmentation
                            &&& (forall|t: int|
                                0 <= t < n ==> #[trigger] spec_chunk_entry_ok(
                                    *old(self),
                                    group,
                                    n as u8,
                                    frags@,
                                    t,
                                    now_ms,
                                    final(self).send_buffer,
                                ))
                        })
                        &&& (!reliable ==> {
                            &&& final(self).unreliable_seq == spec_next_n(
                                old(self).unreliable_seq,
                                n,
                            )
                            &&& final(self).local_seq == old(self).local_seq
                            &&& final(self).send_buffer == old(self).send_buffer
                            &&& final(self).unreliable_fragmentation.group_seq == spec_next(
                                old(self).unreliable_fragmentation.group_seq,
                            )
                            &&& final(self).unreliable_fragmentation.fragments == old(self).unreliable_fragmentation.fragments
                            &&& final(self).reliable_fragmentation == old(self).reliable_fragmentation
                        })
                        &&& final(self).send_ack == (if n > 0 {
                            false
                        } else {
                            old(self).send_ack
                        })
                        &&& final(self).remote_seq == old(self).remote_seq
                        &&& final(self).received_packets == old(self).received_packets
                        &&& final(self).mode == old(self).mode
                        &&& final(self).session_key == old(self).session_key
                        &&& final(self).addr == old(self).addr
                    }
                },
                SendEvent::Disconnect => {
                    &&& r is Ok
                    &&& *final(self) == (Channel {
                        unreliable_seq: spec_next_n(old(self).unreliable_seq, 3),
                        send_ack: false,
                        ..*old(self)
                    })
                    &&& final(send_queue)@.len() == old(send_queue)@.len() + 3
                    &&& final(send_queue)@.subrange(3, final(send_queue)@.len() as int) =~= old(
                        send_queue,
                    )@
                    &&& (forall|k: int|
                        0 <= k < 3 ==> #[trigger] spec_disconnect_event_ok(
                            *old(self),
                            k,
                            final(send_queue)@[2 - k],
                        ))
                },
            },
    {
        match send_event {
            SendEvent::Single(mut buffer, st) => {
                match st {
                    SendType::Reliable => {
                        let seq = match self.create_send_buffer(&mut buffer, false, 0, 0, 0, now_ms) {
                            Ok(seq) => seq,
                            Err(e) => {
                                return Err(e);
                            },
                        };
                        self.send_tracking(seq, buffer, send_queue);
                    },
                    SendType::Unreliable => {
                        match self.create_unreliable_packet(&mut buffer, false, 0, 0, 0) {
                            Ok(_) => {},
                            Err(e) => {
                                return Err(e);
                            },
                        }
                        self.send_non_tracking(buffer, send_queue);
                    },
                }
            },
            SendEvent::Fragmented(frags, st) => {
                let ghost input = frags@;
                // validate every chunk frame before anything is sent, so
                // a failure leaves no partial state behind
                let mut ci: usize = 0;
                while ci < frags.len()
                    invariant
                        ci <= frags@.len(),
                        input == frags@,
                        *self == *old(self),
                        self.wf(),
                        send_queue@ =~= old(send_queue)@,
                        send_event == SendEvent::Fragmented(frags, st),
                        forall|i: int|
                            0 <= i < ci ==> (#[trigger] input[i])@.len() >= 4 + FRAG_HEADER_SIZE,
                    decreases frags@.len() - ci,
                {
                    if frags[ci].len() < 4 + FRAG_HEADER_SIZE {
                        return Err(NetError::BufferTooSmall);
                    }
                    ci += 1;
                }

                let reliable = match st {
                    SendType::Reliable => true,
                    SendType::Unreliable => false,
                };
                let ghost pre = *self;
                let ghost n = frags@.len() as int;
                let ghost q0 = send_queue@;

                let split_result = if reliable {
                    self.reliable_fragmentation.split_fragments(frags)
                } else {
                    self.unreliable_fragmentation.split_fragments(frags)
                };
                let fragments = match split_result {
                    Ok(f) => f,
                    Err(e) => {
                        return Err(e);
                    },
                };

                let group_id = fragments.group_id;
                let chunk_count = fragments.chunk_count;
                let ghost chunk_seq = fragments.chunks@;

                let mut rest = fragments.chunks;
                proof {
                    lemma_ack_field_congruent(pre, *self, 32);
                }
                while rest.len() > 0
                    invariant
                        self.wf(),
                        pre.wf(),
                        (send_event matches SendEvent::Fragmented(f2, st2) && f2@ == input && st2
                            == st),
                        (st == SendType::Reliable) == reliable,
                        pre == *old(self),
                        q0 == old(send_queue)@,
                        n == input.len(),
                        n <= 255,
                        chunk_count as int == n,
                        chunk_seq.len() == n,
                        rest@.len() <= n,
                        rest@ =~= chunk_seq.subrange(n - rest@.len() as int, n as int),
                        forall|i: int|
                            0 <= i < n ==> (#[trigger] chunk_seq[i]).buffer@ == (input[i])@
                                && chunk_seq[i].fragment_id as int == i,
                        forall|i: int|
                            0 <= i < n ==> (#[trigger] input[i])@.len() >= 4 + FRAG_HEADER_SIZE,
                        reliable ==> *self == (Channel {
                            local_seq: spec_next_n(pre.local_seq, n - rest@.len() as int),
                            send_ack: if rest@.len() < n {
                                false
                            } else {
                                pre.send_ack
                            },
                            send_buffer: self.send_buffer,
                            reliable_fragmentation: self.reliable_fragmentation,
                            ..pre
                        }),
                        reliable ==> self.reliable_fragmentation.group_seq == spec_next(
                            pre.reliable_fragmentation.group_seq,
                        ) && self.reliable_fragmentation.fragments
                            == pre.reliable_fragmentation.fragments,
                        !reliable ==> *self == (Channel {
                            unreliable_seq: spec_next_n(pre.unreliable_seq, n - rest@.len() as int),
                            send_ack: if rest@.len() < n {
                                false
                            } else {
                                pre.send_ack
                            },
                            unreliable_fragmentation: self.unreliable_fragmentation,
                            ..pre
                        }),
                        !reliable ==> self.unreliable_fragmentation.group_seq == spec_next(
                            pre.unreliable_fragmentation.group_seq,
                        ) && self.unreliable_fragmentation.fragments
                            == pre.unreliable_fragmentation.fragments,
                        send_queue@.len() == q0.len() + (n - rest@.len() as int),
                        send_queue@.subrange(n - rest@.len() as int, send_queue@.len() as int)
                            =~= q0,
                        forall|t: int|
                            0 <= t < n - rest@.len() as int ==> #[trigger] spec_chunk_event_ok(
                                pre,
                                reliable,
                                group_id,
                                chunk_count,
                                input,
                                t,
                                send_queue@[n - rest@.len() as int - 1 - t],
                            ),
                        reliable ==> (forall|t: int|
                            0 <= t < n - rest@.len() as int ==> #[trigger] spec_chunk_entry_ok(
                                pre,
                                group_id,
                                chunk_count,
                                input,
                                t,
                                now_ms,
                                self.send_buffer,
                            )),
                        self.spec_ack_field() == pre.spec_ack_field(),
                    decreases rest@.len(),
                {
                    let ghost i = n - rest@.len() as int;
                    let ghost rest0 = rest@;
                    let mut chunk = rest.remove(0);
                    proof {
                        assert(chunk == rest0[0]);
                        assert(rest0[0] == chunk_seq.subrange(i, n as int)[0]);
                        assert(chunk == chunk_seq[i]);
                        assert(rest@ =~= chunk_seq.subrange(i + 1, n as int));
                    }
                    let ghost qmid = send_queue@;
                    if reliable {
                        let ghost mid = *self;
                        let seq = match self.create_send_buffer(
                            &mut chunk.buffer,
                            true,
                            group_id,
                            chunk.fragment_id,
                            chunk_count,
                            now_ms,
                        ) {
                            Ok(seq) => seq,
                            Err(_) => {
                                proof {
                                    assert(false);
                                }
                                0
                            },
                        };
                        proof {
                            lemma_ack_field_congruent(pre, mid, 32);
                            assert(mid.spec_reliable_header(
                                true,
                                group_id,
                                chunk.fragment_id,
                                chunk_count,
                            ) == pre.spec_frag_header(reliable, group_id, i, chunk_count));
                            assert forall|t: int| 0 <= t < i implies spec_next_n(pre.local_seq, t)
                                as int % 1024 != spec_next_n(pre.local_seq, i) as int % 1024 by {
                                lemma_next_run_slots_distinct(pre.local_seq, t, i);
                            }
                        }
                        let ghost sent_view = chunk.buffer@;
                        proof {
                            assert(sent_view == spec_spliced(
                                (input[i])@,
                                pre.spec_frag_header(reliable, group_id, i, chunk_count),
                            ));
                            assert(seq == spec_next_n(pre.local_seq, i));
                        }
                        self.send_tracking(seq, chunk.buffer, send_queue);
                        proof {
                            lemma_ack_field_congruent(pre, *self, 32);
                            lemma_queue_step(send_queue@, qmid, q0, i);
                            assert(spec_chunk_event_ok(
                                pre,
                                reliable,
                                group_id,
                                chunk_count,
                                input,
                                i,
                                send_queue@[0],
                            ));
                            assert(spec_chunk_entry_ok(
                                pre,
                                group_id,
                                chunk_count,
                                input,
                                i,
                                now_ms,
                                self.send_buffer,
                            ));
                            assert forall|t: int|
                                0 <= t < i + 1 implies #[trigger] spec_chunk_event_ok(
                                pre,
                                reliable,
                                group_id,
                                chunk_count,
                                input,
                                t,
                                send_queue@[i + 1 - 1 - t],
                            ) by {
                                if t < i {
                                    assert(send_queue@[i - t] == qmid[i - 1 - t]);
                                }
                            }
                            assert forall|t: int|
                                0 <= t < i + 1 implies #[trigger] spec_chunk_entry_ok(
                                pre,
                                group_id,
                                chunk_count,
                                input,
                                t,
                                now_ms,
                                self.send_buffer,
                            ) by {
                                if t < i {
                                    lemma_next_run_slots_distinct(pre.local_seq, t, i);
                                    assert(spec_chunk_entry_ok(
                                        pre,
                                        group_id,
                                        chunk_count,
                                        input,
                                        t,
                                        now_ms,
                                        mid.send_buffer,
                                    ));
                                }
                            }
                        }
                    } else {
                        let ghost mid = *self;
                        match self.create_unreliable_packet(
                            &mut chunk.buffer,
                            true,
                            group_id,
                            chunk.fragment_id,
                            chunk_count,
                        ) {
                            Ok(_) => {},
                            Err(_) => {
                                proof {
                                    assert(false);
                                }
                            },
                        }
                        proof {
                            lemma_ack_field_congruent(pre, mid, 32);
                            assert(mid.spec_unreliable_header(
                                true,
                                group_id,
                                chunk.fragment_id,
                                chunk_count,
                            ) == pre.spec_frag_header(reliable, group_id, i, chunk_count));
                        }
                        let ghost sent_view = chunk.buffer@;
                        proof {
                            assert(sent_view == spec_spliced(
                                (input[i])@,
                                pre.spec_frag_header(reliable, group_id, i, chunk_count),
                            ));
                        }
                        self.send_non_tracking(chunk.buffer, send_queue);
                        proof {
                            lemma_ack_field_congruent(pre, *self, 32);
                            lemma_queue_step(send_queue@, qmid, q0, i);
                            assert(spec_chunk_event_ok(
                                pre,
                                reliable,
                                group_id,
                                chunk_count,
                                input,
                                i,
                                send_queue@[0],
                            ));
                            assert forall|t: int|
                                0 <= t < i + 1 implies #[trigger] spec_chunk_event_ok(
                                pre,
                                reliable,
                                group_id,
                                chunk_count,
                                input,
                                t,
                                send_queue@[i + 1 - 1 - t],
                            ) by {
                                if t < i {
                                    assert(send_queue@[i - t] == qmid[i - 1 - t]);
                                }
                            }
                        }
                    }
                }
            },
            SendEvent::Disconnect => {
                // send three disconnect packets, tolerating loss without
                // any retransmit state
                let ghost pre = *self;
                let ghost q0 = send_queue@;
                let mut k: usize = 0;
                while k < 3
                    invariant
                        self.wf(),
                        pre.wf(),
                        send_event is Disconnect,
                        pre == *old(self),
                        q0 == old(send_queue)@,
                        k <= 3,
                        *self == (Channel {
                            unreliable_seq: spec_next_n(pre.unreliable_seq, k as int),
                            send_ack: if k > 0 {
                                false
                            } else {
                                pre.send_ack
                            },
                            ..pre
                        }),
                        send_queue@.len() == q0.len() + k,
                        send_queue@.subrange(k as int, send_queue@.len() as int) =~= q0,
                        forall|t: int|
                            0 <= t < k as int ==> #[trigger] spec_disconnect_event_ok(
                                pre,
                                t,
                                send_queue@[k - 1 - t],
                            ),
                    decreases 3 - k,
                {
                    let header = Header::new_disconnect(self.unreliable_seq, self.session_key);
                    let mut buffer = bytes_with_header(HEADER_SIZE);

                    let mut int_buffer = IntBuffer::new_at(4);
                    match header.write(buffer.as_mut_slice(), &mut int_buffer) {
                        Ok(_) => {},
                        Err(_) => {
                            proof {
                                assert(false);
                            }
                        },
                    }

                    Sequence::increment(&mut self.unreliable_seq);

                    proof {
                        assert(buffer@ =~= crate::spec_magic() + header.spec_bytes());
                    }
                    let ghost qmid = send_queue@;
                    self.send_non_tracking(buffer, send_queue);
                    proof {
                        lemma_queue_step(send_queue@, qmid, q0, k as int);
                        assert(spec_disconnect_event_ok(pre, k as int, send_queue@[0]));
                        assert forall|t: int|
                            0 <= t < k as int + 1 implies #[trigger] spec_disconnect_event_ok(
                            pre,
                            t,
                            send_queue@[k as int + 1 - 1 - t],
                        ) by {
                            if t < k as int {
                                assert(send_queue@[k - t] == qmid[k - 1 - t]);
                            }
                        }
                    }
                    k += 1;
                }
            },
        }

        Ok(())
    }

}

/// How one tick transforms the channel's own state: every sequence the
/// retransmit walk surfaced has its sent stamp cleared (so the next
/// wire send re-stamps it), untouched send-buffer slots keep their
/// state, the pending-ack flag ends clear, and the unreliable sequence
/// advances exactly when an empty ack went out.
pub open spec fn spec_tick_rel(pre: Channel, post: Channel, now_ms: u64) -> bool {
    &&& post.send_ack == false
    &&& post.mode == pre.mode
    &&& post.session_key == pre.session_key
    &&& post.addr == pre.addr
    &&& post.local_seq == pre.local_seq
    &&& post.remote_seq == pre.remote_seq
    &&& post.received_packets == pre.received_packets
    &&& post.reliable_fragmentation == pre.reliable_fragmentation
    &&& post.unreliable_fragmentation == pre.unreliable_fragmentation
    &&& post.send_buffer.received_acks@ =~= pre.send_buffer.received_acks@
    &&& post.send_buffer.rtt_tracker == pre.send_buffer.rtt_tracker
    &&& (forall|k: int|
        #[trigger] pre.send_buffer.spec_surfaced(pre.local_seq, now_ms, k)
            ==> post.send_buffer.buffers@[crate::send_buffer::spec_slot(
            wrap_sub(pre.local_seq, k as u16),
        )] == Some(
            crate::send_buffer::SendBuffer {
                payload: pre.send_buffer.spec_entry_of(
                    wrap_sub(pre.local_seq, k as u16),
                ).unwrap().payload,
                sent_at: None::<u64>,
            },
        ))
    &&& (forall|j: int|
        0 <= j < BUFFER_SIZE && (forall|k: int|
            pre.send_buffer.spec_surfaced(pre.local_seq, now_ms, k)
                ==> crate::send_buffer::spec_slot(wrap_sub(pre.local_seq, k as u16)) != j)
            ==> post.send_buffer.buffers@[j] == pre.send_buffer.buffers@[j])
    &&& post.unreliable_seq == (if pre.send_buffer.spec_redelivery(
        pre.local_seq,
        now_ms,
        BUFFER_WINDOW_SIZE as int,
    ).len() > 0 {
        pre.unreliable_seq
    } else if pre.send_ack {
        spec_next(pre.unreliable_seq)
    } else {
        pre.unreliable_seq
    })
}

/// How one tick extends the socket queue: the due retransmits in walk
/// order at the front, or one empty ack when one is owed and nothing
/// carried it, or nothing at all.
pub open spec fn spec_tick_queue_rel(
    pre: Channel,
    q0: Seq<UdpSendEvent>,
    q1: Seq<UdpSendEvent>,
    now_ms: u64,
) -> bool {
    let lst = pre.send_buffer.spec_redelivery(pre.local_seq, now_ms, BUFFER_WINDOW_SIZE as int);
    if lst.len() > 0 {
        &&& q1.len() == q0.len() + lst.len()
        &&& q1.subrange(lst.len() as int, q1.len() as int) =~= q0
        &&& (forall|t: int|
            0 <= t < lst.len() ==> #[trigger] spec_retransmit_event_ok(
                pre,
                lst[t].0,
                lst[t].1,
                q1[t],
            ))
    } else if pre.send_ack {
        &&& q1.len() == q0.len() + 1
        &&& q1.subrange(1, q1.len() as int) =~= q0
        &&& spec_empty_ack_event_ok(pre, q1[0])
    } else {
        q1 =~= q0
    }
}

/// What a retransmitted datagram looks like on the socket queue: a
/// mode-appropriate tracking event under the original sequence, whose
/// bytes re-frame the stored payload behind a header refreshed with the
/// channel's current ack state.
pub open spec fn spec_retransmit_event_ok(
    pre: Channel,
    payload: Seq<u8>,
    original: Header,
    ev: UdpSendEvent,
) -> bool {
    let h = Header { ack: pre.remote_seq, ack_bits: pre.spec_ack_field(), ..original };
    match pre.mode {
        ChannelType::Client => ev matches UdpSendEvent::ClientTracking(b, s2) && b@
            =~= crate::spec_magic() + h.spec_bytes() + payload && s2 == original.seq,
        ChannelType::Server => ev matches UdpSendEvent::ServerTracking(b, a, s2) && b@
            =~= crate::spec_magic() + h.spec_bytes() + payload && a == pre.addr && s2
            == original.seq,
    }
}

/// What an empty ack looks like on the socket queue: an untracked,
/// mode-appropriate datagram holding only the magic and an unreliable
/// header carrying the current ack state.
pub open spec fn spec_empty_ack_event_ok(pre: Channel, ev: UdpSendEvent) -> bool {
    let h = pre.spec_unreliable_header(false, 0, 0, 0);
    match pre.mode {
        ChannelType::Client => ev matches UdpSendEvent::Client(b) && b@ =~= crate::spec_magic()
            + h.spec_bytes(),
        ChannelType::Server => ev matches UdpSendEvent::Server(b, a) && b@
            =~= crate::spec_magic() + h.spec_bytes() && a == pre.addr,
    }
}

/// What chunk `t` of a fragmented send looks like on the socket queue:
/// a mode-appropriate event (tracked exactly for reliable sends) whose
/// bytes are the chunk's framed buffer with its header written in, and
/// whose tracking tag is the chunk's assigned sequence.
pub open spec fn spec_chunk_event_ok(
    pre: Channel,
    reliable: bool,
    group: u16,
    count: u8,
    input: Seq<Bytes>,
    t: int,
    ev: UdpSendEvent,
) -> bool {
    let h = pre.spec_frag_header(reliable, group, t, count);
    let sq = spec_next_n(
        if reliable {
            pre.local_seq
        } else {
            pre.unreliable_seq
        },
        t,
    );
    match pre.mode {
        ChannelType::Client => {
            if reliable {
                ev matches UdpSendEvent::ClientTracking(b, s2) && b@ == spec_spliced(
                    (input[t])@,
                    h,
                ) && s2 == sq
            } else {
                ev matches UdpSendEvent::Client(b) && b@ == spec_spliced((input[t])@, h)
            }
        },
        ChannelType::Server => {
            if reliable {
                ev matches UdpSendEvent::ServerTracking(b, a, s2) && b@ == spec_spliced(
                    (input[t])@,
                    h,
                ) && a == pre.addr && s2 == sq
            } else {
                ev matches UdpSendEvent::Server(b, a) && b@ == spec_spliced((input[t])@, h) && a
                    == pre.addr
            }
        },
    }
}

/// What chunk `t` of a reliable fragmented send leaves in the send
/// buffer: an unsent entry holding the chunk's payload under its
/// assigned sequence, and a fresh unacked record stamped `now_ms`.
pub open spec fn spec_chunk_entry_ok(
    pre: Channel,
    group: u16,
    count: u8,
    input: Seq<Bytes>,
    t: int,
    now_ms: u64,
    sb: SendBufferManager,
) -> bool {
    let h = pre.spec_frag_header(true, group, t, count);
    let sq = spec_next_n(pre.local_seq, t);
    &&& (sb.spec_entry_of(sq) matches Some(b) && b.payload.buffer@ == (input[t])@.subrange(
        4 + FRAG_HEADER_SIZE as int,
        (input[t])@.len() as int,
    ) && b.payload.original_header == h && b.sent_at is None)
    &&& (sb.spec_ack_of(sq) matches Some(ra) && ra.acked == false && ra.packet_created_at
        == now_ms)
}

/// What burst packet `k` of a disconnect looks like on the socket
/// queue: an untracked, mode-appropriate datagram holding only the
/// magic and a disconnect header under the `k`th unreliable sequence.
pub open spec fn spec_disconnect_event_ok(pre: Channel, k: int, ev: UdpSendEvent) -> bool {
    let h = Header::spec_disconnect_header(
        spec_next_n(pre.unreliable_seq, k),
        pre.session_key,
    );
    match pre.mode {
        ChannelType::Client => ev matches UdpSendEvent::Client(b) && b@ =~= crate::spec_magic()
            + h.spec_bytes(),
        ChannelType::Server => ev matches UdpSendEvent::Server(b, a) && b@
            =~= crate::spec_magic() + h.spec_bytes() && a == pre.addr,
    }
}

/// One front-push onto a queue whose tail beyond `i` elements was `q0`
/// leaves `q0` beyond `i + 1` elements.
proof fn lemma_queue_step(qnew: Seq<UdpSendEvent>, qmid: Seq<UdpSendEvent>, q0: Seq<UdpSendEvent>, i: int)
    requires
        0 <= i,
        qmid.len() == q0.len() + i,
        qmid.subrange(i, qmid.len() as int) =~= q0,
        qnew.len() == qmid.len() + 1,
        qnew.subrange(1, qnew.len() as int) =~= qmid,
    ensures
        qnew.len() == q0.len() + i + 1,
        qnew.subrange(i + 1, qnew.len() as int) =~= q0,
        forall|j: int| 1 <= j < qnew.len() ==> qnew[j] == qmid[j - 1],
{
    assert forall|j: int| 1 <= j < qnew.len() implies qnew[j] == qmid[j - 1] by {
        assert(qnew.subrange(1, qnew.len() as int)[j - 1] == qnew[j]);
    }
    assert forall|j: int| 0 <= j < q0.len() implies qnew.subrange(
        i + 1,
        qnew.len() as int,
    )[j] == q0[j] by {
        assert(qnew[i + 1 + j] == qmid[i + j]);
        assert(qmid.subrange(i, qmid.len() as int)[j] == qmid[i + j]);
    }
}

/// The generated ack field depends only on the remote sequence and the
/// received window: two channel states agreeing on those generate the
/// same field.
pub proof fn lemma_ack_field_congruent(c1: Channel, c2: Channel, k: int)
    requires
        c1.remote_seq == c2.remote_seq,
        c1.received_packets == c2.received_packets,
        0 <= k,
    ensures
        c1.spec_ack_field_upto(k) == c2.spec_ack_field_upto(k),
        k == 32 ==> c1.spec_ack_field() == c2.spec_ack_field(),
    decreases k,
{
    if k > 0 {
        lemma_ack_field_congruent(c1, c2, k - 1);
    }
}



/// The bytes of a framed buffer once the header `h` has been written in
/// place behind the magic.
pub open spec fn spec_spliced(buf: Seq<u8>, h: Header) -> Seq<u8> {
    buf.subrange(0, 4) + h.spec_bytes() + buf.subrange(4 + h.spec_size(), buf.len() as int)
}

/// `n` successive sequence increments.
pub open spec fn spec_next_n(s: u16, n: int) -> u16
    decreases n,
{
    if n <= 0 {
        s
    } else {
        spec_next(spec_next_n(s, n - 1))
    }
}

/// The sequence counter admits a closed form: `n` increments from `s`
/// land on `(s + n) mod 0xffff`, since the counter cycles through the
/// values `0 .. 0xfffe`.
pub proof fn lemma_next_n_closed(s: u16, n: int)
    requires
        s < 0xffff,
        0 <= n,
    ensures
        spec_next_n(s, n) < 0xffff,
        spec_next_n(s, n) as int == (s + n) % 0xffff,
    decreases n,
{
    if n == 0 {
        vstd::arithmetic::div_mod::lemma_small_mod(s as nat, 0xffff);
    } else {
        lemma_next_n_closed(s, n - 1);
        let prev = spec_next_n(s, n - 1);
        vstd::arithmetic::div_mod::lemma_add_mod_noop_right(s + n - 1, 1, 0xffff);
        vstd::arithmetic::div_mod::lemma_mod_twice(s + n - 1, 0xffff);
        if prev >= 0xfffe {
            assert(prev as int + 1 == 0xffff);
            assert((prev as int + 1) % 0xffff == 0) by {
                vstd::arithmetic::div_mod::lemma_mod_self_0(0xffff);
            }
        } else {
            vstd::arithmetic::div_mod::lemma_small_mod((prev + 1) as nat, 0xffff);
        }
    }
}

/// Within a run of at most 255 sequence increments, every step lands on
/// its own ring slot.
pub proof fn lemma_next_run_slots_distinct(s: u16, k1: int, k2: int)
    requires
        s < 0xffff,
        0 <= k1 < 256,
        0 <= k2 < 256,
        k1 != k2,
    ensures
        spec_next_n(s, k1) as int % 1024 != spec_next_n(s, k2) as int % 1024,
{
    lemma_next_n_closed(s, k1);
    lemma_next_n_closed(s, k2);
    let x = spec_next_n(s, k1);
    let y = spec_next_n(s, k2);
    assert(x as int == (s + k1) % 0xffff);
    assert(y as int == (s + k2) % 0xffff);
    lemma_reduced_mod(s as int, k1);
    lemma_reduced_mod(s as int, k2);
    assert(x != y);
    assert(wrap_sub(x, y) < 1024 || wrap_sub(y, x) < 1024) by (bit_vector)
        requires
            x != y,
            ({
                let dx = x as int;
                let dy = y as int;
                (dx - dy <= 255 && dy - dx <= 255) || (dx - dy >= 0xffff - 255) || (dy - dx
                    >= 0xffff - 255)
            }),
    ;
    crate::send_buffer::lemma_slot_distinct_public(x, y);
}

/// The value `(s + k) mod 0xffff` differs from `s + k` by zero or one
/// whole cycle, for small `k`.
proof fn lemma_reduced_mod(s: int, k: int)
    requires
        0 <= s < 0xffff,
        0 <= k < 256,
    ensures
        (s + k) % 0xffff == s + k || (s + k) % 0xffff == s + k - 0xffff,
{
    if s + k < 0xffff {
        vstd::arithmetic::div_mod::lemma_small_mod((s + k) as nat, 0xffff);
    } else {
        vstd::arithmetic::div_mod::lemma_mod_sub_multiples_vanish(s + k, 0xffff);
        vstd::arithmetic::div_mod::lemma_small_mod((s + k - 0xffff) as nat, 0xffff);
    }
}

/// Bit `i` of the generated ack field is set exactly when sequence
/// `remote_seq - i - 1` is within the received window.
pub proof fn lemma_ack_field_bits(c: Channel, k: int)
    requires
        0 <= k <= 32,
    ensures
        forall|i: u32|
            i < k ==> #[trigger] spec_bit32(c.spec_ack_field_upto(k), i) == c.spec_seen(
                wrap_sub(c.remote_seq, (i + 1) as u16),
            ),
        forall|i: u32| k <= i < 32 ==> !spec_bit32(c.spec_ack_field_upto(k), i),
    decreases k,
{
    if k == 0 {
        lemma_zero_bits32();
    } else {
        lemma_ack_field_bits(c, k - 1);
        let prev = c.spec_ack_field_upto(k - 1);
        let cur = c.spec_ack_field_upto(k);
        if c.spec_seen(wrap_sub(c.remote_seq, k as u16)) {
            lemma_set_bit32(prev, (k - 1) as u32, true);
            assert(cur == prev | (1u32 << ((k - 1) as u32)));
            assert forall|i: u32|
                i < k implies #[trigger] spec_bit32(cur, i) == c.spec_seen(
                wrap_sub(c.remote_seq, (i + 1) as u16),
            ) by {
                assert(spec_bit32(cur, i) == (i == (k - 1) as u32 || spec_bit32(prev, i)));
                if i == (k - 1) as u32 {
                    assert((i + 1) as u16 == k as u16);
                }
            }
            assert forall|i: u32| k <= i < 32 implies !spec_bit32(cur, i) by {
                assert(spec_bit32(cur, i) == (i == (k - 1) as u32 || spec_bit32(prev, i)));
            }
        } else {
            assert(cur == prev);
            assert forall|i: u32|
                i < k implies #[trigger] spec_bit32(cur, i) == c.spec_seen(
                wrap_sub(c.remote_seq, (i + 1) as u16),
            ) by {
                if i == (k - 1) as u32 {
                    assert(!spec_bit32(prev, i));
                    assert((i + 1) as u16 == k as u16);
                }
            }
        }
    }
}

} // verus!
