//! Outbound reliable-send bookkeeping.
//!
//! Two rings indexed by `seq mod BUFFER_SIZE`: one stores, per unacked
//! sequence, the framed payload and an optional sent timestamp; the other
//! stores per-sequence ack status and creation time. Acks feed the RTT
//! tracker; the retransmit walk surfaces unacked, sent sequences whose
//! send is older than the recommended round trip.

use vstd::prelude::*;

use crate::bitops::{get_bit32, lemma_zero_bits32, spec_bit32};
use crate::header::Header;
use crate::rtt_tracker::{spec_recommended_rtt, RttTracker};
use crate::sequence::wrap_sub;
use crate::sequence_buffer::SequenceBuffer;
use crate::{Bytes, BUFFER_SIZE, BUFFER_WINDOW_SIZE};

verus! {

/// How long an unacked sequence stays eligible for retransmission, in
/// milliseconds.
pub const SEND_TIMEOUT_MS: u64 = 3000;

/// The slot a sequence occupies in the send rings.
pub open spec fn spec_slot(seq: u16) -> int {
    seq as int % BUFFER_SIZE as int
}

/// Two sequences within less than a ring length of each other occupy
/// distinct slots.
proof fn lemma_distinct_slots(a: u16, b: u16)
    by (bit_vector)
    requires
        a != b,
        wrap_sub(a, b) < 1024 || wrap_sub(b, a) < 1024,
    ensures
        a as int % 1024 != b as int % 1024,
{
}

/// Two distinct sequences within less than a ring length of each other
/// occupy distinct ring slots.
pub proof fn lemma_slot_distinct_public(a: u16, b: u16)
    requires
        a != b,
        wrap_sub(a, b) < 1024 || wrap_sub(b, a) < 1024,
    ensures
        spec_slot(a) != spec_slot(b),
{
    lemma_distinct_slots(a, b);
}

/// Walking back from `ack` and forward again lands on the same sequence,
/// and walking back one more step from `i` steps away is the same as
/// walking back `i + 1` steps.
proof fn lemma_wrap_facts(ack: u16)
    by (bit_vector)
    ensures
        forall|s: u16| #[trigger] wrap_sub(ack, wrap_sub(ack, s)) == s,
        forall|i: u16|
            i < 32 ==> #[trigger] wrap_sub(wrap_sub(ack, i), 1) == wrap_sub(ack, (i + 1) as u16),
{
}

pub struct SendPayload {
    pub buffer: Bytes,
    pub original_header: Header,
}

impl Clone for SendPayload {
    fn clone(&self) -> (r: Self)
        ensures
            r.buffer@ == self.buffer@,
            r.original_header == self.original_header,
    {
        let buffer = self.buffer.clone();
        proof {
            assert(buffer@ =~= self.buffer@);
        }
        SendPayload { buffer, original_header: self.original_header }
    }
}

pub struct SendBuffer {
    pub payload: SendPayload,
    pub sent_at: Option<u64>,
}

pub struct ReceivedAck {
    pub acked: bool,
    pub packet_created_at: u64,
}

/// Whether an ack with primary sequence `ack` and bitfield
/// `ack_bitfield` acknowledges `s`, counting only bits below `limit`:
/// either `s` is the primary, or bit `i` is set and `s` lies `i + 1`
/// steps behind the primary.
pub open spec fn spec_covered_upto(ack: u16, ack_bitfield: u32, limit: int, s: u16) -> bool {
    ||| s == ack
    ||| (exists|i: int|
        0 <= i < limit && i < 32 && #[trigger] spec_bit32(ack_bitfield, i as u32) && wrap_sub(
            ack,
            s,
        ) == i + 1)
}

/// Whether an ack with primary `ack` and bitfield `ack_bitfield`
/// acknowledges sequence `s`: bit `i` of the field stands for
/// `ack - i - 1`.
pub open spec fn spec_ack_covers(ack: u16, ack_bitfield: u32, s: u16) -> bool {
    spec_covered_upto(ack, ack_bitfield, 32, s)
}

/// Every sequence an ack covers lies within 33 steps of the primary, so
/// two distinct covered sequences occupy distinct ring slots.
proof fn lemma_covered_slots_distinct(ack: u16, bits: u32, l1: int, l2: int, a: u16, b: u16)
    requires
        spec_covered_upto(ack, bits, l1, a),
        spec_covered_upto(ack, bits, l2, b),
        a != b,
    ensures
        spec_slot(a) != spec_slot(b),
{
    lemma_covered_distance(ack, bits, l1, a);
    lemma_covered_distance(ack, bits, l2, b);
    assert(wrap_sub(a, b) < 1024 || wrap_sub(b, a) < 1024) by (bit_vector)
        requires
            wrap_sub(ack, a) <= 33,
            wrap_sub(ack, b) <= 33,
            a != b,
    ;
    lemma_distinct_slots(a, b);
}

/// A covered sequence lies at most 33 steps behind the primary.
proof fn lemma_covered_distance(ack: u16, bits: u32, limit: int, s: u16)
    requires
        spec_covered_upto(ack, bits, limit, s),
    ensures
        wrap_sub(ack, s) <= 33,
{
    if s == ack {
        assert(wrap_sub(ack, s) == 0);
    } else {
        let i = choose|i: int|
            0 <= i < limit && i < 32 && #[trigger] spec_bit32(bits, i as u32) && wrap_sub(ack, s) == i + 1;
        assert(wrap_sub(ack, s) == i + 1);
    }
}

/// Coverage only grows as more bits are admitted.
proof fn lemma_covered_monotone(ack: u16, bits: u32, l1: int, l2: int, s: u16)
    requires
        l1 <= l2,
        spec_covered_upto(ack, bits, l1, s),
    ensures
        spec_covered_upto(ack, bits, l2, s),
{
    if s != ack {
        let i = choose|i: int|
            0 <= i < l1 && i < 32 && #[trigger] spec_bit32(bits, i as u32) && wrap_sub(ack, s) == i + 1;
        assert(0 <= i < l2 && i < 32 && spec_bit32(bits, i as u32) && wrap_sub(ack, s) == i + 1);
    }
}

/// What admitting one more bit adds to the coverage.
proof fn lemma_covered_step(ack: u16, bits: u32, bp: int, s: u16)
    requires
        0 <= bp < 32,
        spec_covered_upto(ack, bits, bp + 1, s),
    ensures
        spec_covered_upto(ack, bits, bp, s) || (spec_bit32(bits, bp as u32) && wrap_sub(ack, s)
            == bp + 1),
{
    if s != ack {
        let i = choose|i: int|
            0 <= i < bp + 1 && i < 32 && #[trigger] spec_bit32(bits, i as u32) && wrap_sub(ack, s) == i + 1;
        if i < bp {
            assert(0 <= i < bp && i < 32 && spec_bit32(bits, i as u32) && wrap_sub(ack, s) == i
                + 1);
        }
    }
}

/// How acking `(ack, ack_bitfield)` at `received_at_ms` transforms a
/// send-buffer state: every covered sequence loses its outstanding entry
/// and has its ack record marked, untouched slots keep their state, and
/// the RTT tracker absorbs the primary's round trip when its send time
/// was known.
pub open spec fn spec_acked_rel(
    pre: SendBufferManager,
    post: SendBufferManager,
    ack: u16,
    ack_bitfield: u32,
    received_at_ms: u64,
) -> bool {
    &&& (forall|s: u16|
        #[trigger] spec_ack_covers(ack, ack_bitfield, s) ==> {
            &&& post.spec_entry_of(s) is None
            &&& (match pre.spec_ack_of(s) {
                Some(r0) => post.spec_ack_of(s) == Some(
                    ReceivedAck { acked: true, packet_created_at: r0.packet_created_at },
                ),
                None => post.spec_ack_of(s) is None,
            })
        })
    &&& (forall|j: int|
        0 <= j < BUFFER_SIZE && (forall|s: u16|
            spec_ack_covers(ack, ack_bitfield, s) ==> spec_slot(s) != j) ==> {
            &&& post.buffers@[j] == pre.buffers@[j]
            &&& post.received_acks@[j] == pre.received_acks@[j]
        })
    &&& post.rtt_tracker == (match pre.spec_entry_of(ack) {
        Some(b) => match b.sent_at {
            Some(sent) => pre.rtt_tracker.spec_recorded(sent, received_at_ms),
            None => pre.rtt_tracker,
        },
        None => pre.rtt_tracker,
    })
}

pub struct SendBufferManager {
    pub buffers: SequenceBuffer<SendBuffer>,
    pub received_acks: SequenceBuffer<ReceivedAck>,
    pub rtt_tracker: RttTracker,
}

impl SendBufferManager {
    pub open spec fn wf(&self) -> bool {
        &&& self.buffers.wf()
        &&& self.buffers.partition_by == BUFFER_SIZE
        &&& self.received_acks.wf()
        &&& self.received_acks.partition_by == BUFFER_SIZE
        &&& self.rtt_tracker.wf()
        &&& (forall|j: int|
            0 <= j < BUFFER_SIZE && self.buffers@[j] is Some ==> {
                let b = (#[trigger] self.buffers@[j]).unwrap();
                b.payload.buffer@.len() + 4 + b.payload.original_header.spec_size()
                    <= usize::MAX
            })
    }

    /// The ack record of sequence `s`, if its slot holds one.
    pub open spec fn spec_ack_of(&self, s: u16) -> Option<ReceivedAck> {
        self.received_acks@[spec_slot(s)]
    }

    /// The outstanding entry of sequence `s`, if its slot holds one.
    pub open spec fn spec_entry_of(&self, s: u16) -> Option<SendBuffer> {
        self.buffers@[spec_slot(s)]
    }

    pub fn new() -> (r: Self)
        ensures
            r.wf(),
            forall|j: int| 0 <= j < BUFFER_SIZE ==> r.buffers@[j] is None,
            forall|j: int| 0 <= j < BUFFER_SIZE ==> r.received_acks@[j] is None,
            r.rtt_tracker == RttTracker::spec_initial(),
    {
        SendBufferManager {
            buffers: SequenceBuffer::with_size(BUFFER_SIZE),
            received_acks: SequenceBuffer::with_size(BUFFER_SIZE),
            rtt_tracker: RttTracker::new(),
        }
    }

    /// Records the moment a tracked sequence actually left the socket. A
    /// sequence without an outstanding entry is ignored.
    pub fn mark_sent(&mut self, seq: u16, sent_at_ms: u64)
        requires
            old(self).wf(),
        ensures
            final(self).wf(),
            final(self).received_acks@ =~= old(self).received_acks@,
            final(self).received_acks.partition_by == old(self).received_acks.partition_by,
            final(self).rtt_tracker == old(self).rtt_tracker,
            match old(self).spec_entry_of(seq) {
                Some(b) => final(self).buffers@ =~= old(self).buffers@.update(
                    spec_slot(seq),
                    Some(SendBuffer { payload: b.payload, sent_at: Some(sent_at_ms) }),
                ),
                None => final(self).buffers@ =~= old(self).buffers@,
            },
    {
        if let Some(buffer) = self.buffers.get_mut(seq) {
            buffer.sent_at = Some(sent_at_ms);
        }
    }

    /// Installs a fresh outstanding entry and an unacked ack record for
    /// `seq`, overwriting whatever the slot held.
    pub fn push_send_buffer(&mut self, seq: u16, data: &[u8], header: &Header, now_ms: u64)
        requires
            old(self).wf(),
            data@.len() + 4 + header.spec_size() <= usize::MAX,
        ensures
            final(self).wf(),
            final(self).rtt_tracker == old(self).rtt_tracker,
            ({
                let entry = final(self).spec_entry_of(seq);
                &&& entry matches Some(b)
                &&& b.payload.buffer@ == data@
                &&& b.payload.original_header == *header
                &&& b.sent_at is None
            }),
            forall|j: int|
                0 <= j < BUFFER_SIZE && j != spec_slot(seq) ==> final(self).buffers@[j] == old(
                    self,
                ).buffers@[j],
            final(self).received_acks@ =~= old(self).received_acks@.update(
                spec_slot(seq),
                Some(ReceivedAck { acked: false, packet_created_at: now_ms }),
            ),
    {
        let send_buffer = SendBuffer {
            payload: SendPayload {
                buffer: vstd::slice::slice_to_vec(data),
                original_header: *header,
            },
            sent_at: None,
        };

        self.received_acks.insert(seq, ReceivedAck { acked: false, packet_created_at: now_ms });
        self.buffers.insert(seq, send_buffer);
    }

    /// Acks one sequence: its outstanding entry is dropped, its ack
    /// record (if present) is marked, and — only when `received_at_ms`
    /// is given and the entry had a sent time — the round trip is fed to
    /// the RTT tracker.
    fn ack_packet(&mut self, ack: u16, received_at_ms: Option<u64>)
        requires
            old(self).wf(),
        ensures
            final(self).wf(),
            final(self).buffers@ =~= old(self).buffers@.update(spec_slot(ack), None),
            match old(self).spec_ack_of(ack) {
                Some(r0) => final(self).received_acks@ =~= old(self).received_acks@.update(
                    spec_slot(ack),
                    Some(ReceivedAck { acked: true, packet_created_at: r0.packet_created_at }),
                ),
                None => final(self).received_acks@ =~= old(self).received_acks@,
            },
            final(self).rtt_tracker == (match (received_at_ms, old(self).spec_entry_of(ack)) {
                (Some(t), Some(b)) => match b.sent_at {
                    Some(sent) => old(self).rtt_tracker.spec_recorded(sent, t),
                    None => old(self).rtt_tracker,
                },
                _ => old(self).rtt_tracker,
            }),
    {
        if let Some(received_at) = received_at_ms {
            if let Some(buffer) = self.buffers.take(ack) {
                if let Some(sent_at) = buffer.sent_at {
                    self.rtt_tracker.record_rtt(sent_at, received_at);
                }
            }
        } else {
            self.buffers.remove(ack);
        }

        // this should be set
        if let Some(received_ack) = self.received_acks.get_mut(ack) {
            received_ack.acked = true;
        }
    }

    /// Acks the primary sequence `ack` (recording RTT when a sent time is
    /// known) and then every sequence a set bit of `ack_bitfield` names.
    /// Bitfield acks never record RTT: their send time is ambiguous
    /// across retransmits.
    pub fn mark_acked_packets(&mut self, ack: u16, ack_bitfield: u32, received_at_ms: u64)
        requires
            old(self).wf(),
        ensures
            final(self).wf(),
            spec_acked_rel(*old(self), *final(self), ack, ack_bitfield, received_at_ms),
    {
        let ghost pre = *self;
        // only the latest one records RTT
        self.ack_packet(ack, Some(received_at_ms));

        // a zero bitfield acks nothing further
        if ack_bitfield > 0 {
            let mut bit_pos: usize = 0;
            while bit_pos < 32
                invariant
                    self.wf(),
                    bit_pos <= 32,
                    self.rtt_tracker == (match pre.spec_entry_of(ack) {
                        Some(b) => match b.sent_at {
                            Some(sent) => pre.rtt_tracker.spec_recorded(sent, received_at_ms),
                            None => pre.rtt_tracker,
                        },
                        None => pre.rtt_tracker,
                    }),
                    forall|s: u16|
                        #[trigger] spec_covered_upto(ack, ack_bitfield, bit_pos as int, s) ==> {
                            &&& self.spec_entry_of(s) is None
                            &&& (match pre.spec_ack_of(s) {
                                Some(r0) => self.spec_ack_of(s) == Some(
                                    ReceivedAck {
                                        acked: true,
                                        packet_created_at: r0.packet_created_at,
                                    },
                                ),
                                None => self.spec_ack_of(s) is None,
                            })
                        },
                    forall|j: int|
                        0 <= j < BUFFER_SIZE && (forall|s: u16|
                            spec_covered_upto(ack, ack_bitfield, bit_pos as int, s) ==> spec_slot(
                                s,
                            ) != j) ==> {
                            &&& self.buffers@[j] == pre.buffers@[j]
                            &&& self.received_acks@[j] == pre.received_acks@[j]
                        },
                decreases 32 - bit_pos,
            {
                let ghost bp = bit_pos as int;
                let ghost mid = *self;
                if get_bit32(ack_bitfield, bit_pos) {
                    let seq = ack.wrapping_sub(bit_pos as u16).wrapping_sub(1);
                    proof {
                        lemma_wrap_facts(ack);
                        assert(seq == wrap_sub(ack, (bp + 1) as u16));
                        assert(wrap_sub(ack, seq) == bp + 1);
                        assert(spec_covered_upto(ack, ack_bitfield, bp + 1, seq));
                        // seq is not covered by the bits below bp
                        assert(!spec_covered_upto(ack, ack_bitfield, bp, seq)) by {
                            if spec_covered_upto(ack, ack_bitfield, bp, seq) {
                                lemma_covered_distance(ack, ack_bitfield, bp, seq);
                                let i = choose|i: int|
                                    0 <= i < bp && i < 32 && #[trigger] spec_bit32(
                                        ack_bitfield,
                                        i as u32,
                                    ) && wrap_sub(ack, seq) == i + 1;
                                assert(false);
                            }
                        }
                        // hence its slot is still in its pre state
                        assert forall|s: u16|
                            spec_covered_upto(ack, ack_bitfield, bp, s) implies spec_slot(s)
                            != spec_slot(seq) by {
                            lemma_covered_slots_distinct(
                                ack,
                                ack_bitfield,
                                bp,
                                bp + 1,
                                s,
                                seq,
                            );
                        }
                        assert(mid.buffers@[spec_slot(seq)] == pre.buffers@[spec_slot(seq)]);
                        assert(mid.received_acks@[spec_slot(seq)] == pre.received_acks@[spec_slot(
                            seq,
                        )]);
                    }
                    self.ack_packet(seq, None);
                    proof {
                        let ghost post = *self;
                        assert forall|s: u16|
                            #[trigger] spec_covered_upto(
                                ack,
                                ack_bitfield,
                                bp + 1,
                                s,
                            ) implies {
                            &&& post.spec_entry_of(s) is None
                            &&& (match pre.spec_ack_of(s) {
                                Some(r0) => post.spec_ack_of(s) == Some(
                                    ReceivedAck {
                                        acked: true,
                                        packet_created_at: r0.packet_created_at,
                                    },
                                ),
                                None => post.spec_ack_of(s) is None,
                            })
                        } by {
                            lemma_covered_step(ack, ack_bitfield, bp, s);
                            if spec_covered_upto(ack, ack_bitfield, bp, s) {
                                if s != seq {
                                    lemma_covered_slots_distinct(
                                        ack,
                                        ack_bitfield,
                                        bp,
                                        bp + 1,
                                        s,
                                        seq,
                                    );
                                }
                            } else {
                                lemma_wrap_facts(ack);
                                assert(s == seq);
                            }
                        }
                        assert forall|j: int|
                            0 <= j < BUFFER_SIZE && (forall|s: u16|
                                spec_covered_upto(ack, ack_bitfield, bp + 1, s) ==> spec_slot(s)
                                    != j) implies {
                            &&& post.buffers@[j] == pre.buffers@[j]
                            &&& post.received_acks@[j] == pre.received_acks@[j]
                        } by {
                            assert forall|s: u16|
                                spec_covered_upto(ack, ack_bitfield, bp, s) implies spec_slot(s)
                                != j by {
                                lemma_covered_monotone(ack, ack_bitfield, bp, bp + 1, s);
                            }
                            assert(spec_slot(seq) != j);
                        }
                    }
                } else {
                    proof {
                        assert forall|s: u16|
                            #[trigger] spec_covered_upto(
                                ack,
                                ack_bitfield,
                                bp + 1,
                                s,
                            ) implies spec_covered_upto(ack, ack_bitfield, bp, s) by {
                            lemma_covered_step(ack, ack_bitfield, bp, s);
                        }
                        assert forall|j: int|
                            0 <= j < BUFFER_SIZE && (forall|s: u16|
                                spec_covered_upto(ack, ack_bitfield, bp + 1, s) ==> spec_slot(s)
                                    != j) implies {
                            &&& self.buffers@[j] == pre.buffers@[j]
                            &&& self.received_acks@[j] == pre.received_acks@[j]
                        } by {
                            assert forall|s: u16|
                                spec_covered_upto(ack, ack_bitfield, bp, s) implies spec_slot(s)
                                != j by {
                                lemma_covered_monotone(ack, ack_bitfield, bp, bp + 1, s);
                            }
                        }
                    }
                }
                bit_pos += 1;
            }
        } else {
            proof {
                lemma_zero_bits32();
                assert forall|s: u16|
                    #[trigger] spec_ack_covers(ack, ack_bitfield, s) implies s == ack by {
                    if s != ack {
                        let i = choose|i: int|
                            0 <= i < 32 && #[trigger] spec_bit32(ack_bitfield, i as u32)
                                && wrap_sub(ack, s) == i + 1;
                        assert(!spec_bit32(0u32, i as u32));
                        assert(false);
                    }
                }
                assert forall|j: int|
                    0 <= j < BUFFER_SIZE && (forall|s: u16|
                        spec_ack_covers(ack, ack_bitfield, s) ==> spec_slot(s) != j) implies {
                    &&& self.buffers@[j] == pre.buffers@[j]
                    &&& self.received_acks@[j] == pre.received_acks@[j]
                } by {
                    assert(spec_ack_covers(ack, ack_bitfield, ack));
                    assert(spec_slot(ack) != j);
                }
            }
        }
    }

    /// Whether the ack record of `s` has outlived `SEND_TIMEOUT_MS` at
    /// `now_ms`; such a sequence, and everything older in a retransmit
    /// walk, is permanently given up.
    pub open spec fn spec_expired(&self, s: u16, now_ms: u64) -> bool {
        match self.spec_ack_of(s) {
            Some(ra) => now_ms > ra.packet_created_at + SEND_TIMEOUT_MS,
            None => false,
        }
    }

    /// Whether `s` is due for retransmission at `now_ms`: it has an
    /// unacked ack record and an outstanding entry whose send is older
    /// than the recommended round trip.
    pub open spec fn spec_eligible(&self, s: u16, now_ms: u64) -> bool {
        &&& (match self.spec_ack_of(s) {
            Some(ra) => !ra.acked,
            None => false,
        })
        &&& (match self.spec_entry_of(s) {
            Some(b) => match b.sent_at {
                Some(t) => now_ms > t + spec_recommended_rtt(
                    self.rtt_tracker.total_rtt,
                    self.rtt_tracker.num_measurements,
                ),
                None => false,
            },
            None => false,
        })
    }

    /// Whether a retransmit walk from `local_seq` has hit an expired
    /// sequence within its first `k` steps.
    pub open spec fn spec_walk_stopped(&self, local_seq: u16, now_ms: u64, k: int) -> bool
        decreases k,
    {
        if k <= 0 {
            false
        } else {
            self.spec_walk_stopped(local_seq, now_ms, k - 1) || self.spec_expired(
                wrap_sub(local_seq, (k - 1) as u16),
                now_ms,
            )
        }
    }

    /// Whether step `k` of a retransmit walk from `local_seq` surfaces
    /// its sequence: the walk has not stopped, the sequence has not
    /// expired, and it is due.
    pub open spec fn spec_surfaced(&self, local_seq: u16, now_ms: u64, k: int) -> bool {
        &&& 0 <= k < BUFFER_WINDOW_SIZE
        &&& !self.spec_walk_stopped(local_seq, now_ms, k)
        &&& !self.spec_expired(wrap_sub(local_seq, k as u16), now_ms)
        &&& self.spec_eligible(wrap_sub(local_seq, k as u16), now_ms)
    }

    /// The payloads (bytes and original header) the first `k` steps of a
    /// retransmit walk surface, in walk order.
    pub open spec fn spec_redelivery(&self, local_seq: u16, now_ms: u64, k: int) -> Seq<
        (Seq<u8>, Header),
    >
        decreases k,
    {
        if k <= 0 {
            Seq::empty()
        } else {
            let prev = self.spec_redelivery(local_seq, now_ms, k - 1);
            if self.spec_surfaced(local_seq, now_ms, k - 1) {
                let b = self.spec_entry_of(wrap_sub(local_seq, (k - 1) as u16)).unwrap();
                prev.push((b.payload.buffer@, b.payload.original_header))
            } else {
                prev
            }
        }
    }

    /// Walks backwards from `local_seq` for at most `BUFFER_WINDOW_SIZE`
    /// sequences, appending every sequence that is due for retransmission
    /// to `marked_packets` and clearing its sent time so a later wire
    /// send re-timestamps it. The walk gives up at the first sequence
    /// whose ack record outlived `SEND_TIMEOUT_MS`.
    #[verifier::rlimit(100)]
    pub fn get_redelivery_packet(
        &mut self,
        local_seq: u16,
        marked_packets: &mut Vec<SendPayload>,
        now_ms: u64,
    )
        requires
            old(self).wf(),
        ensures
            final(self).wf(),
            final(self).received_acks@ =~= old(self).received_acks@,
            final(self).rtt_tracker == old(self).rtt_tracker,
            ({
                let lst = old(self).spec_redelivery(local_seq, now_ms, BUFFER_WINDOW_SIZE as int);
                let n0 = old(marked_packets)@.len() as int;
                &&& final(marked_packets)@.len() == n0 + lst.len()
                &&& final(marked_packets)@.subrange(0, n0) =~= old(marked_packets)@
                &&& (forall|i: int|
                    0 <= i < lst.len() ==> final(marked_packets)@[n0 + i].buffer@ == (
                    #[trigger] lst[i]).0 && final(marked_packets)@[n0 + i].original_header
                        == lst[i].1)
            }),
            forall|k: int|
                #[trigger] old(self).spec_surfaced(local_seq, now_ms, k)
                    ==> final(self).buffers@[spec_slot(wrap_sub(local_seq, k as u16))] == Some(
                    SendBuffer {
                        payload: old(self).spec_entry_of(
                            wrap_sub(local_seq, k as u16),
                        ).unwrap().payload,
                        sent_at: None::<u64>,
                    },
                ),
            forall|j: int|
                0 <= j < BUFFER_SIZE && (forall|k: int|
                    old(self).spec_surfaced(local_seq, now_ms, k) ==> spec_slot(
                        wrap_sub(local_seq, k as u16),
                    ) != j) ==> final(self).buffers@[j] == old(self).buffers@[j],
    {
        let ghost pre = *self;
        let ghost n0 = marked_packets@.len() as int;
        let ghost m0 = marked_packets@;
        let recommended = self.rtt_tracker.recommended_max_rtt();

        proof {
            lemma_walk_slots_distinct(local_seq);
        }

        // start at the last sent packet
        let mut current_seq = local_seq;

        let mut i: u16 = 0;
        while i < BUFFER_WINDOW_SIZE
            invariant_except_break
                self.wf(),
                i <= BUFFER_WINDOW_SIZE,
                current_seq == wrap_sub(local_seq, i),
                recommended == spec_recommended_rtt(
                    pre.rtt_tracker.total_rtt,
                    pre.rtt_tracker.num_measurements,
                ),
                self.received_acks@ =~= pre.received_acks@,
                self.received_acks.partition_by == pre.received_acks.partition_by,
                self.rtt_tracker == pre.rtt_tracker,
                self.buffers.partition_by == pre.buffers.partition_by,
                !pre.spec_walk_stopped(local_seq, now_ms, i as int),
                n0 == m0.len(),
                marked_packets@.len() == n0 + pre.spec_redelivery(local_seq, now_ms, i as int).len(),
                marked_packets@.subrange(0, n0) =~= m0,
                (forall|t: int|
                    0 <= t < pre.spec_redelivery(local_seq, now_ms, i as int).len()
                        ==> marked_packets@[n0 + t].buffer@ == (#[trigger] pre.spec_redelivery(
                        local_seq,
                        now_ms,
                        i as int,
                    )[t]).0 && marked_packets@[n0 + t].original_header == pre.spec_redelivery(
                        local_seq,
                        now_ms,
                        i as int,
                    )[t].1),
                forall|k: int|
                    0 <= k < i as int && #[trigger] pre.spec_surfaced(local_seq, now_ms, k)
                        ==> self.buffers@[spec_slot(wrap_sub(local_seq, k as u16))] == Some(
                        SendBuffer {
                            payload: pre.spec_entry_of(
                                wrap_sub(local_seq, k as u16),
                            ).unwrap().payload,
                            sent_at: None::<u64>,
                        },
                    ),
                forall|j: int|
                    0 <= j < BUFFER_SIZE && (forall|k: int|
                        0 <= k < i as int && pre.spec_surfaced(local_seq, now_ms, k) ==> spec_slot(
                            wrap_sub(local_seq, k as u16),
                        ) != j) ==> self.buffers@[j] == pre.buffers@[j],
            ensures
                self.wf(),
                self.received_acks@ =~= pre.received_acks@,
                self.received_acks.partition_by == pre.received_acks.partition_by,
                self.rtt_tracker == pre.rtt_tracker,
                self.buffers.partition_by == pre.buffers.partition_by,
                marked_packets@.len() == n0 + pre.spec_redelivery(
                    local_seq,
                    now_ms,
                    BUFFER_WINDOW_SIZE as int,
                ).len(),
                marked_packets@.subrange(0, n0) =~= m0,
                (forall|t: int|
                    0 <= t < pre.spec_redelivery(
                        local_seq,
                        now_ms,
                        BUFFER_WINDOW_SIZE as int,
                    ).len() ==> marked_packets@[n0 + t].buffer@ == (
                    #[trigger] pre.spec_redelivery(
                        local_seq,
                        now_ms,
                        BUFFER_WINDOW_SIZE as int,
                    )[t]).0 && marked_packets@[n0 + t].original_header == pre.spec_redelivery(
                        local_seq,
                        now_ms,
                        BUFFER_WINDOW_SIZE as int,
                    )[t].1),
                forall|k: int|
                    #[trigger] pre.spec_surfaced(local_seq, now_ms, k)
                        ==> self.buffers@[spec_slot(wrap_sub(local_seq, k as u16))] == Some(
                        SendBuffer {
                            payload: pre.spec_entry_of(
                                wrap_sub(local_seq, k as u16),
                            ).unwrap().payload,
                            sent_at: None::<u64>,
                        },
                    ),
                forall|j: int|
                    0 <= j < BUFFER_SIZE && (forall|k: int|
                        pre.spec_surfaced(local_seq, now_ms, k) ==> spec_slot(
                            wrap_sub(local_seq, k as u16),
                        ) != j) ==> self.buffers@[j] == pre.buffers@[j],
            decreases BUFFER_WINDOW_SIZE - i,
        {
            let ghost ki = i as int;
            let ghost s_i = current_seq;
            proof {
                // the walked slot is still in its pre state: every slot
                // cleared so far belongs to an earlier walk step
                assert forall|k: int|
                    0 <= k < ki && pre.spec_surfaced(local_seq, now_ms, k) implies spec_slot(
                    wrap_sub(local_seq, k as u16),
                ) != spec_slot(s_i) by {}
                assert(self.buffers@[spec_slot(s_i)] == pre.buffers@[spec_slot(s_i)]);
            }
            let mut surfaced_now: bool = false;
            if let Some(received_ack) = self.received_acks.get(current_seq) {
                // if the current packet timed out we can safely finish
                // checking older ones because they expired too
                if received_ack.packet_created_at <= u64::MAX - SEND_TIMEOUT_MS && now_ms
                    > received_ack.packet_created_at + SEND_TIMEOUT_MS {
                    proof {
                        assert(pre.spec_expired(s_i, now_ms));
                        lemma_walk_frozen(
                            pre,
                            local_seq,
                            now_ms,
                            ki + 1,
                            BUFFER_WINDOW_SIZE as int,
                        );
                        assert(pre.spec_redelivery(local_seq, now_ms, ki + 1)
                            =~= pre.spec_redelivery(local_seq, now_ms, ki));
                        assert forall|k: int|
                            #[trigger] pre.spec_surfaced(local_seq, now_ms, k) implies 0 <= k
                            < ki by {}
                    }
                    break ;
                }

                if !received_ack.acked {
                    if let Some(send_buffer) = self.buffers.get_mut(current_seq) {
                        // we are only interested in packets that were
                        // sent already
                        if let Some(sent_at) = send_buffer.sent_at {
                            if sent_at <= u64::MAX - recommended && now_ms > sent_at
                                + recommended {
                                // requeue the item
                                marked_packets.push(send_buffer.payload.clone());

                                // mark it as not sent again
                                send_buffer.sent_at = None;
                                surfaced_now = true;
                            }
                        }
                    }
                }
            }
            proof {
                assert(!pre.spec_walk_stopped(local_seq, now_ms, ki + 1));
                if surfaced_now {
                    assert(pre.spec_surfaced(local_seq, now_ms, ki));
                } else {
                    assert(!pre.spec_surfaced(local_seq, now_ms, ki));
                }
                assert(pre.spec_redelivery(local_seq, now_ms, ki + 1) == (if pre.spec_surfaced(
                    local_seq,
                    now_ms,
                    ki,
                ) {
                    pre.spec_redelivery(local_seq, now_ms, ki).push(
                        (
                            pre.spec_entry_of(s_i).unwrap().payload.buffer@,
                            pre.spec_entry_of(s_i).unwrap().payload.original_header,
                        ),
                    )
                } else {
                    pre.spec_redelivery(local_seq, now_ms, ki)
                }));
            }
            current_seq = current_seq.wrapping_sub(1);
            proof {
                assert(current_seq == wrap_sub(local_seq, (i + 1) as u16)) by (bit_vector)
                    requires
                        current_seq == wrap_sub(wrap_sub(local_seq, i), 1),
                        i < 256,
                ;
                let lst1 = pre.spec_redelivery(local_seq, now_ms, ki + 1);
                let lst0 = pre.spec_redelivery(local_seq, now_ms, ki);
                assert(marked_packets@.len() == n0 + lst1.len());
                assert(marked_packets@.subrange(0, n0) =~= m0);
                assert forall|t: int| 0 <= t < lst1.len() implies marked_packets@[n0 + t].buffer@
                    == (#[trigger] lst1[t]).0 && marked_packets@[n0 + t].original_header
                    == lst1[t].1 by {
                    if t < lst0.len() {
                        assert(lst1[t] == lst0[t]);
                    }
                }
            }
            i += 1;
        }
    }
}

/// Any two distinct steps of a 256-long walk land on distinct ring
/// slots.
proof fn lemma_walk_slots_distinct(local: u16)
    by (bit_vector)
    ensures
        forall|k1: u16, k2: u16|
            #![trigger wrap_sub(local, k1), wrap_sub(local, k2)]
            k1 < 256 && k2 < 256 && k1 != k2 ==> wrap_sub(local, k1) as int % 1024 != wrap_sub(
                local,
                k2,
            ) as int % 1024,
{
}

/// Every payload the retransmit walk surfaces came from a stored entry,
/// so its frame (magic, header, payload) still fits in memory.
pub proof fn lemma_redelivery_items_bounded(
    sb: SendBufferManager,
    local_seq: u16,
    now_ms: u64,
    k: int,
)
    requires
        sb.wf(),
    ensures
        forall|t: int|
            0 <= t < sb.spec_redelivery(local_seq, now_ms, k).len() ==> (
            #[trigger] sb.spec_redelivery(local_seq, now_ms, k)[t]).0.len() + 4
                + sb.spec_redelivery(local_seq, now_ms, k)[t].1.spec_size() <= usize::MAX,
    decreases k,
{
    if k > 0 {
        lemma_redelivery_items_bounded(sb, local_seq, now_ms, k - 1);
        let prev = sb.spec_redelivery(local_seq, now_ms, k - 1);
        let cur = sb.spec_redelivery(local_seq, now_ms, k);
        if sb.spec_surfaced(local_seq, now_ms, k - 1) {
            let s = wrap_sub(local_seq, (k - 1) as u16);
            vstd::arithmetic::div_mod::lemma_mod_bound(s as int, BUFFER_SIZE as int);
            let b = sb.spec_entry_of(s).unwrap();
            assert(sb.buffers@[spec_slot(s)] is Some);
            assert(b.payload.buffer@.len() + 4 + b.payload.original_header.spec_size()
                <= usize::MAX);
            assert(cur == prev.push((b.payload.buffer@, b.payload.original_header)));
            assert forall|t: int|
                0 <= t < cur.len() implies (#[trigger] cur[t]).0.len() + 4 + cur[t].1.spec_size()
                <= usize::MAX by {
                if t < prev.len() {
                    assert(cur[t] == prev[t]);
                }
            }
        } else {
            assert(cur == prev);
        }
    }
}

/// Once a retransmit walk has stopped, no later step surfaces anything
/// and the surfaced list stays as it was.
proof fn lemma_walk_frozen(
    pre: SendBufferManager,
    local_seq: u16,
    now_ms: u64,
    k0: int,
    k1: int,
)
    requires
        0 <= k0 <= k1,
        pre.spec_walk_stopped(local_seq, now_ms, k0),
    ensures
        pre.spec_walk_stopped(local_seq, now_ms, k1),
        pre.spec_redelivery(local_seq, now_ms, k1) == pre.spec_redelivery(local_seq, now_ms, k0),
        forall|k: int| k0 <= k < k1 ==> !pre.spec_surfaced(local_seq, now_ms, k),
    decreases k1 - k0,
{
    if k0 < k1 {
        assert(pre.spec_walk_stopped(local_seq, now_ms, k0 + 1));
        assert(!pre.spec_surfaced(local_seq, now_ms, k0));
        assert(pre.spec_redelivery(local_seq, now_ms, k0 + 1) == pre.spec_redelivery(
            local_seq,
            now_ms,
            k0,
        ));
        lemma_walk_frozen(pre, local_seq, now_ms, k0 + 1, k1);
    }
}

} // verus!
