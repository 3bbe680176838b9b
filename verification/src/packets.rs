//! Framing of outbound application messages.
//!
//! A message is wrapped into one datagram buffer, or split into chunk
//! buffers of at most `FRAGMENT_SIZE` payload bytes each. Every buffer is
//! laid out as magic, zeroed header space, payload, so the channel can
//! write the real header in place without moving the payload.

use vstd::prelude::*;

use crate::error::NetError;
use crate::fragmentation_manager::{
    spec_concat_chunks, FragmentationManager, FRAGMENT_SIZE, MAX_FRAGMENT_SIZE,
};
use crate::header::{SendType, FRAG_HEADER_SIZE, HEADER_SIZE};
use crate::int_buffer::IntBuffer;
use crate::{bytes_with_header, spec_magic, Bytes};

verus! {

#[derive(Debug)]
pub enum SendEvent {
    Single(Bytes, SendType),
    Fragmented(Vec<Bytes>, SendType),
    Disconnect,
}

/// Chunk `i` of a message: the `i`th stretch of `FRAGMENT_SIZE` bytes,
/// the last one possibly shorter.
pub open spec fn spec_chunk(data: Seq<u8>, i: int) -> Seq<u8> {
    let lo = FRAGMENT_SIZE as int * i;
    let hi = if FRAGMENT_SIZE as int * (i + 1) <= data.len() {
        FRAGMENT_SIZE as int * (i + 1)
    } else {
        data.len() as int
    };
    data.subrange(lo, hi)
}

/// How many chunks a message of `len` bytes splits into.
pub open spec fn spec_chunk_count(len: int) -> int {
    (len + FRAGMENT_SIZE - 1) / FRAGMENT_SIZE as int
}

/// Prepares the appropriately framed byte buffers for one application
/// message, so nothing needs to be reallocated or copied later: one
/// buffer below the fragmentation threshold, chunk buffers above it.
/// An empty message and one beyond `MAX_FRAGMENT_SIZE` are refused.
pub fn construct_send_event(data: &[u8], send_type: SendType) -> (r: Result<SendEvent, NetError>)
    ensures
        match r {
            Ok(ev) => match ev {
                SendEvent::Single(buffer, st) => {
                    &&& 0 < data@.len() <= FRAGMENT_SIZE
                    &&& st == send_type
                    &&& buffer@.len() == data@.len() + 4 + HEADER_SIZE
                    &&& buffer@.subrange(0, 4) =~= spec_magic()
                    &&& (forall|j: int| 4 <= j < 4 + HEADER_SIZE ==> buffer@[j] == 0u8)
                    &&& buffer@.subrange(4 + HEADER_SIZE as int, buffer@.len() as int) =~= data@
                },
                SendEvent::Fragmented(frags, st) => {
                    &&& FRAGMENT_SIZE < data@.len() <= MAX_FRAGMENT_SIZE
                    &&& st == send_type
                    &&& frags@.len() == spec_chunk_count(data@.len() as int)
                    &&& (forall|i: int|
                        0 <= i < frags@.len() ==> {
                            let b = (#[trigger] frags@[i])@;
                            &&& b.len() == spec_chunk(data@, i).len() + 4 + FRAG_HEADER_SIZE
                            &&& b.subrange(0, 4) =~= spec_magic()
                            &&& (forall|j: int| 4 <= j < 4 + FRAG_HEADER_SIZE ==> b[j] == 0u8)
                            &&& b.subrange(4 + FRAG_HEADER_SIZE as int, b.len() as int)
                                =~= spec_chunk(data@, i)
                        })
                },
                SendEvent::Disconnect => false,
            },
            Err(e) => {
                &&& (e == NetError::EmptyPayload <==> data@.len() == 0)
                &&& (e == NetError::PacketTooLarge <==> data@.len() > MAX_FRAGMENT_SIZE)
                &&& (e == NetError::EmptyPayload || e == NetError::PacketTooLarge)
            },
        },
        r is Err <==> (data@.len() == 0 || data@.len() > MAX_FRAGMENT_SIZE),
{
    let data_len = data.len();

    if data_len == 0 {
        return Err(NetError::EmptyPayload);
    }

    if FragmentationManager::exceeds_max_length(data_len) {
        return Err(NetError::PacketTooLarge);
    }

    if FragmentationManager::should_fragment(data_len) {
        let mut fragments: Vec<Bytes> = Vec::new();
        let mut offset: usize = 0;

        while offset < data_len
            invariant
                data_len == data@.len(),
                0 < data_len <= MAX_FRAGMENT_SIZE,
                FRAGMENT_SIZE < data_len,
                offset <= data_len,
                offset < data_len ==> offset == FRAGMENT_SIZE * fragments@.len(),
                FRAGMENT_SIZE * fragments@.len() >= offset,
                fragments@.len() > 0 ==> FRAGMENT_SIZE * (fragments@.len() - 1) < offset,
                forall|i: int|
                    0 <= i < fragments@.len() ==> {
                        let b = (#[trigger] fragments@[i])@;
                        &&& b.len() == spec_chunk(data@, i).len() + 4 + FRAG_HEADER_SIZE
                        &&& b.subrange(0, 4) =~= spec_magic()
                        &&& (forall|j: int| 4 <= j < 4 + FRAG_HEADER_SIZE ==> b[j] == 0u8)
                        &&& b.subrange(4 + FRAG_HEADER_SIZE as int, b.len() as int) =~= spec_chunk(
                            data@,
                            i,
                        )
                    },
            decreases data_len - offset,
        {
            let chunk_len = if data_len - offset >= FRAGMENT_SIZE {
                FRAGMENT_SIZE
            } else {
                data_len - offset
            };
            let chunk = &data[offset..offset + chunk_len];

            let mut buffer = bytes_with_header(chunk_len + FRAG_HEADER_SIZE);
            let mut int_buffer = IntBuffer::new_at(4 + FRAG_HEADER_SIZE);
            int_buffer.write_slice(chunk, &mut buffer);

            proof {
                let i = fragments@.len() as int;
                assert(chunk@ =~= spec_chunk(data@, i));
                assert(buffer@.subrange(0, 4) =~= spec_magic());
                assert(buffer@.subrange(
                    4 + FRAG_HEADER_SIZE as int,
                    buffer@.len() as int,
                ) =~= chunk@);
            }

            fragments.push(buffer);
            offset = offset + chunk_len;
        }

        proof {
            lemma_chunk_count(data_len as int, fragments@.len() as int);
        }

        Ok(SendEvent::Fragmented(fragments, send_type))
    } else {
        let mut buffer = bytes_with_header(data_len + HEADER_SIZE);
        let mut int_buffer = IntBuffer::new_at(4 + HEADER_SIZE);
        int_buffer.write_slice(data, &mut buffer);

        proof {
            assert(buffer@.subrange(0, 4) =~= spec_magic());
            assert(buffer@.subrange(4 + HEADER_SIZE as int, buffer@.len() as int) =~= data@);
        }

        Ok(SendEvent::Single(buffer, send_type))
    }
}

/// Splitting and reassembly are inverse: a fragment group holding
/// exactly the chunks of a message — in any arrival order — flattens
/// back to that message once complete. The first `k` chunks cover the
/// first `k` stretches of the message.
pub proof fn lemma_split_reassembles(data: Seq<u8>, chunks: Seq<Option<Bytes>>, k: int)
    requires
        data.len() > 0,
        chunks.len() == spec_chunk_count(data.len() as int),
        forall|i: int|
            0 <= i < chunks.len() ==> ((#[trigger] chunks[i]) matches Some(c) && c@ == spec_chunk(
                data,
                i,
            )),
        0 <= k <= chunks.len(),
    ensures
        spec_concat_chunks(chunks, k) == data.subrange(
            0,
            if FRAGMENT_SIZE as int * k <= data.len() {
                FRAGMENT_SIZE as int * k
            } else {
                data.len() as int
            },
        ),
        k == chunks.len() ==> spec_concat_chunks(chunks, k) == data,
    decreases k,
{
    let len = data.len() as int;
    let n = chunks.len() as int;
    assert(FRAGMENT_SIZE as int * (n - 1) < len <= FRAGMENT_SIZE as int * n) by (nonlinear_arith)
        requires
            len > 0,
            n == spec_chunk_count(len),
    ;
    if k == 0 {
        assert(spec_concat_chunks(chunks, 0) =~= data.subrange(0, 0));
    } else {
        lemma_split_reassembles(data, chunks, k - 1);
        let lo = FRAGMENT_SIZE as int * (k - 1);
        let hi = if FRAGMENT_SIZE as int * k <= len {
            FRAGMENT_SIZE as int * k
        } else {
            len
        };
        assert(lo < len) by (nonlinear_arith)
            requires
                k <= n,
                FRAGMENT_SIZE as int * (n - 1) < len,
                lo == FRAGMENT_SIZE as int * (k - 1),
        ;
        assert((chunks[k - 1] matches Some(c) && c@ == spec_chunk(data, k - 1)));
        assert(spec_chunk(data, k - 1) == data.subrange(lo, hi));
        assert(data.subrange(0, lo) + data.subrange(lo, hi) =~= data.subrange(0, hi));
        if k == n {
            assert(hi == len);
            assert(data.subrange(0, len) =~= data);
        }
    }
}

/// A walk that ends exactly at `len` having produced `n` full-or-final
/// chunks produced `ceil(len / FRAGMENT_SIZE)` of them.
proof fn lemma_chunk_count(len: int, n: int)
    by (nonlinear_arith)
    requires
        len > 0,
        FRAGMENT_SIZE * (n - 1) < len,
        len <= FRAGMENT_SIZE * n,
    ensures
        n == spec_chunk_count(len),
{
}

} // verus!
