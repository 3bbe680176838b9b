//! Application-level fragmentation and reassembly.
//!
//! Outbound messages split into at most 255 chunks of `FRAGMENT_SIZE`
//! bytes; each split takes the current group sequence and numbers its
//! chunks from zero. Inbound chunks gather in per-group records keyed by
//! group id; a group assembles once every chunk is present and is given
//! up once it outlives `GROUP_TIMEOUT_MS`.

use vstd::prelude::*;

use crate::error::NetError;
use crate::header::Header;
use crate::sequence::{spec_next, Sequence};
use crate::window_buffer::WindowSequenceBuffer;
use crate::{Bytes, BUFFER_SIZE, BUFFER_WINDOW_SIZE};

verus! {

/// Payload bytes carried by one chunk on the wire.
pub const FRAGMENT_SIZE: usize = 1024;

/// The largest single application message: 255 chunks of
/// `FRAGMENT_SIZE` bytes.
pub const MAX_FRAGMENT_SIZE: usize = FRAGMENT_SIZE * 255;

/// How long an incomplete group is kept, in milliseconds.
pub const GROUP_TIMEOUT_MS: u64 = 5000;

/// How many chunk slots of a group hold a chunk.
pub open spec fn spec_present_count(chunks: Seq<Option<Bytes>>) -> int
    decreases chunks.len(),
{
    if chunks.len() <= 0 {
        0
    } else {
        spec_present_count(chunks.drop_last()) + (if chunks.last() is Some {
            1int
        } else {
            0int
        })
    }
}

/// The present-chunk count never exceeds the slot count.
pub proof fn lemma_present_count_bounds(chunks: Seq<Option<Bytes>>)
    ensures
        0 <= spec_present_count(chunks) <= chunks.len(),
    decreases chunks.len(),
{
    if chunks.len() > 0 {
        lemma_present_count_bounds(chunks.drop_last());
    }
}

/// A group whose present-chunk count equals its slot count has a chunk
/// in every slot.
pub proof fn lemma_present_count_full(chunks: Seq<Option<Bytes>>)
    requires
        spec_present_count(chunks) == chunks.len(),
    ensures
        forall|i: int| 0 <= i < chunks.len() ==> chunks[i] is Some,
    decreases chunks.len(),
{
    if chunks.len() > 0 {
        lemma_present_count_bounds(chunks.drop_last());
        assert(chunks.last() is Some);
        lemma_present_count_full(chunks.drop_last());
        assert forall|i: int| 0 <= i < chunks.len() implies chunks[i] is Some by {
            if i < chunks.len() - 1 {
                assert(chunks.drop_last()[i] is Some);
            }
        }
    }
}

/// Filling an empty slot raises the present-chunk count by one.
pub proof fn lemma_present_count_fill(chunks: Seq<Option<Bytes>>, id: int, v: Bytes)
    requires
        0 <= id < chunks.len(),
        chunks[id] is None,
    ensures
        spec_present_count(chunks.update(id, Some(v))) == spec_present_count(chunks) + 1,
    decreases chunks.len(),
{
    let updated = chunks.update(id, Some(v));
    if id == chunks.len() - 1 {
        assert(updated.drop_last() =~= chunks.drop_last());
        assert(updated.last() is Some);
    } else {
        assert(updated.drop_last() =~= chunks.drop_last().update(id, Some(v)));
        assert(updated.last() == chunks.last());
        lemma_present_count_fill(chunks.drop_last(), id, v);
    }
}

/// How many payload bytes a group's present chunks hold together.
pub open spec fn spec_present_bytes(chunks: Seq<Option<Bytes>>) -> int
    decreases chunks.len(),
{
    if chunks.len() <= 0 {
        0
    } else {
        spec_present_bytes(chunks.drop_last()) + (match chunks.last() {
            Some(c) => c@.len() as int,
            None => 0,
        })
    }
}

/// The byte total of the present chunks is never negative.
pub proof fn lemma_present_bytes_bounds(chunks: Seq<Option<Bytes>>)
    ensures
        0 <= spec_present_bytes(chunks),
    decreases chunks.len(),
{
    if chunks.len() > 0 {
        lemma_present_bytes_bounds(chunks.drop_last());
    }
}

/// Filling an empty slot raises the byte total by that chunk's length.
pub proof fn lemma_present_bytes_fill(chunks: Seq<Option<Bytes>>, id: int, v: Bytes)
    requires
        0 <= id < chunks.len(),
        chunks[id] is None,
    ensures
        spec_present_bytes(chunks.update(id, Some(v))) == spec_present_bytes(chunks)
            + v@.len(),
    decreases chunks.len(),
{
    let updated = chunks.update(id, Some(v));
    if id == chunks.len() - 1 {
        assert(updated.drop_last() =~= chunks.drop_last());
        assert(updated.last() == Some(v));
    } else {
        assert(updated.drop_last() =~= chunks.drop_last().update(id, Some(v)));
        assert(updated.last() == chunks.last());
        lemma_present_bytes_fill(chunks.drop_last(), id, v);
    }
}

/// The concatenation of the first `k` chunks is as long as the bytes
/// they hold.
pub proof fn lemma_concat_len(chunks: Seq<Option<Bytes>>, k: int)
    requires
        0 <= k <= chunks.len(),
    ensures
        spec_concat_chunks(chunks, k).len() == spec_present_bytes(chunks.subrange(0, k)),
    decreases k,
{
    if k > 0 {
        lemma_concat_len(chunks, k - 1);
        let head = chunks.subrange(0, k);
        assert(head.drop_last() =~= chunks.subrange(0, k - 1));
        assert(head.last() == chunks[k - 1]);
    }
}

/// A group with an empty slot has fewer present chunks than slots.
pub proof fn lemma_present_count_missing(chunks: Seq<Option<Bytes>>, id: int)
    requires
        0 <= id < chunks.len(),
        chunks[id] is None,
    ensures
        spec_present_count(chunks) <= chunks.len() - 1,
    decreases chunks.len(),
{
    lemma_present_count_bounds(chunks.drop_last());
    if id == chunks.len() - 1 {
        assert(chunks.last() is None);
    } else {
        lemma_present_count_missing(chunks.drop_last(), id);
    }
}

pub struct ReceiveFragments {
    pub group_id: u16,
    pub chunks: Vec<Option<Bytes>>,
    pub size: u8,
    pub current_size: u8,
    pub current_bytes: usize,
    pub created_on: u64,
}

impl ReceiveFragments {
    /// A group record is consistent: one chunk slot per declared chunk,
    /// and the present-chunk counter matches the slots.
    pub open spec fn wf(&self) -> bool {
        &&& self.size > 0
        &&& self.chunks@.len() == self.size
        &&& self.current_size as int == spec_present_count(self.chunks@)
        &&& self.current_size <= self.size
        &&& self.current_bytes as int == (if spec_present_bytes(self.chunks@)
            <= usize::MAX as int {
            spec_present_bytes(self.chunks@)
        } else {
            usize::MAX as int
        })
    }

    /// Whether the group has outlived its timeout at `now_ms`.
    pub open spec fn spec_expired(&self, now_ms: u64) -> bool {
        now_ms > self.created_on + GROUP_TIMEOUT_MS
    }

    /// Whether every chunk of the group is present.
    pub open spec fn spec_done(&self) -> bool {
        self.current_size == self.size
    }

    pub fn is_done(&self) -> (r: bool)
        ensures
            r == self.spec_done(),
    {
        self.current_size == self.size
    }
}

pub struct Fragments {
    pub chunks: Vec<FragmentChunk>,
    pub chunk_count: u8,
    pub group_id: u16,
}

pub struct FragmentChunk {
    pub buffer: Bytes,
    pub fragment_id: u8,
}

pub struct FragmentationManager {
    pub group_seq: u16,
    pub fragments: WindowSequenceBuffer<ReceiveFragments>,
}

impl FragmentationManager {
    pub open spec fn wf(&self) -> bool {
        &&& self.fragments.wf()
        &&& self.fragments.buffer.partition_by == BUFFER_SIZE
        &&& self.fragments.window_size == BUFFER_WINDOW_SIZE
        &&& (forall|j: int|
            0 <= j < BUFFER_SIZE && self.fragments@[j] is Some ==> (
            #[trigger] self.fragments@[j]).unwrap().wf())
    }

    /// The slot of a group in the reassembly ring.
    pub open spec fn spec_group_slot(group_id: u16) -> int {
        group_id as int % BUFFER_SIZE as int
    }

    /// The group record stored for `group_id`, if its slot holds one.
    pub open spec fn spec_group_at(&self, group_id: u16) -> Option<ReceiveFragments> {
        self.fragments@[Self::spec_group_slot(group_id)]
    }

    pub fn new() -> (r: Self)
        ensures
            r.wf(),
            r.group_seq == 0,
            forall|j: int| 0 <= j < BUFFER_SIZE ==> r.fragments@[j] is None,
    {
        Self {
            group_seq: 0,
            fragments: WindowSequenceBuffer::with_size(BUFFER_SIZE, BUFFER_WINDOW_SIZE),
        }
    }

    /// Whether a message of `length` bytes needs splitting.
    pub fn should_fragment(length: usize) -> (r: bool)
        ensures
            r == (length > FRAGMENT_SIZE),
    {
        length > FRAGMENT_SIZE
    }

    /// Whether a message of `length` bytes is too large to send at all.
    pub fn exceeds_max_length(length: usize) -> (r: bool)
        ensures
            r == (MAX_FRAGMENT_SIZE < length),
    {
        MAX_FRAGMENT_SIZE < length
    }

    /// Pairs the given chunks with the current group sequence and
    /// ascending fragment ids, then advances the group sequence. Fails
    /// with `TooManyFragments` above 255 chunks.
    pub fn split_fragments(&mut self, chunks: Vec<Bytes>) -> (r: Result<Fragments, NetError>)
        requires
            old(self).wf(),
        ensures
            final(self).wf(),
            final(self).fragments == old(self).fragments,
            match r {
                Ok(f) => {
                    &&& chunks@.len() <= 255
                    &&& final(self).group_seq == spec_next(old(self).group_seq)
                    &&& f.group_id == old(self).group_seq
                    &&& f.chunk_count as int == chunks@.len()
                    &&& f.chunks@.len() == chunks@.len()
                    &&& (forall|i: int|
                        0 <= i < chunks@.len() ==> (#[trigger] f.chunks@[i]).buffer@
                            == chunks@[i]@ && f.chunks@[i].fragment_id as int == i)
                },
                Err(e) => {
                    &&& e == NetError::TooManyFragments
                    &&& chunks@.len() > 255
                    &&& final(self).group_seq == old(self).group_seq
                },
            },
    {
        if chunks.len() > 255 {
            return Err(NetError::TooManyFragments);
        }

        let chunk_count = chunks.len() as u8;
        let ghost input = chunks@;

        let mut fragments = Fragments {
            chunk_count,
            group_id: self.group_seq,
            chunks: Vec::new(),
        };

        let ghost pre_seq = self.group_seq;
        let mut rest = chunks;
        let mut fragment_id: u8 = 0;
        while rest.len() > 0
            invariant
                fragments.group_id == pre_seq,
                fragments.chunk_count as int == input.len(),
                fragment_id as int == fragments.chunks@.len(),
                fragments.chunks@.len() + rest@.len() == input.len(),
                input.len() <= 255,
                rest@ =~= input.subrange(fragments.chunks@.len() as int, input.len() as int),
                forall|i: int|
                    0 <= i < fragments.chunks@.len() ==> (#[trigger] fragments.chunks@[i]).buffer@
                        == input[i]@ && fragments.chunks@[i].fragment_id as int == i,
            decreases rest@.len(),
        {
            let chunk = rest.remove(0);
            fragments.chunks.push(FragmentChunk { buffer: chunk, fragment_id });
            fragment_id += 1;
        }

        Sequence::increment(&mut self.group_seq);

        Ok(fragments)
    }

    /// Whether `group_id` currently has a live (present, unexpired)
    /// group record.
    pub fn validate_group(&self, group_id: u16, now_ms: u64) -> (r: bool)
        requires
            self.wf(),
        ensures
            r == (match self.spec_group_at(group_id) {
                Some(g) => !g.spec_expired(now_ms),
                None => false,
            }),
    {
        if let Some(fragment) = self.fragments.get(group_id) {
            let expired = fragment.created_on <= u64::MAX - GROUP_TIMEOUT_MS && now_ms
                > fragment.created_on + GROUP_TIMEOUT_MS;
            return !expired;
        }
        false
    }

    /// Drops whatever group record `group_id`'s slot holds.
    pub fn remove_fragment_group(&mut self, group_id: u16)
        requires
            old(self).wf(),
        ensures
            final(self).wf(),
            final(self).group_seq == old(self).group_seq,
            final(self).fragments@ =~= old(self).fragments@.update(
                Self::spec_group_slot(group_id),
                None,
            ),
            final(self).fragments.last_sequence == old(self).fragments.last_sequence,
    {
        self.fragments.remove(group_id);
    }

    /// What filing a chunk returns, computed from the pre-state alone:
    /// completion, non-completion, or the error the chunk earns.
    pub open spec fn spec_insert_outcome(pre: FragmentationManager, header: Header, now_ms: u64) -> Result<bool, NetError> {
        if header.fragment_size == 0 || header.fragment_id >= header.fragment_size {
            Err(NetError::InvalidFragmentId)
        } else {
            match pre.spec_group_at(header.fragment_group_id) {
                None => Ok(header.fragment_size == 1),
                Some(g) => {
                    if g.spec_expired(now_ms) {
                        Err(NetError::FragmentExpired)
                    } else if g.size != header.fragment_size {
                        Err(NetError::FragmentSizeMismatch)
                    } else if g.chunks@[header.fragment_id as int] is Some {
                        Ok(g.spec_done())
                    } else {
                        Ok(g.current_size + 1 == g.size)
                    }
                },
            }
        }
    }

    /// How filing a chunk carrying `payload` transforms the reassembly
    /// ring, case by case over the pre-state.
    pub open spec fn spec_insert_rel(
        pre: FragmentationManager,
        post: FragmentationManager,
        header: Header,
        payload: Seq<u8>,
        now_ms: u64,
    ) -> bool {
        let slot = Self::spec_group_slot(header.fragment_group_id);
        let old_group = pre.spec_group_at(header.fragment_group_id);
        if header.fragment_size == 0 || header.fragment_id >= header.fragment_size {
            // malformed chunk: nothing changes
            post.fragments@ =~= pre.fragments@
        } else {
            match old_group {
                Some(g) => {
                    if g.spec_expired(now_ms) {
                        post.fragments@ =~= pre.fragments@.update(slot, None)
                    } else if g.size != header.fragment_size {
                        post.fragments@ =~= pre.fragments@
                    } else if g.chunks@[header.fragment_id as int] is Some {
                        // duplicate chunk: no accounting change
                        post.fragments@ =~= pre.fragments@
                    } else {
                        &&& (post.spec_group_at(header.fragment_group_id) matches Some(ng) && {
                            &&& ng.group_id == g.group_id
                            &&& ng.size == g.size
                            &&& ng.created_on == g.created_on
                            &&& ng.current_size == g.current_size + 1
                            &&& ng.chunks@.len() == g.chunks@.len()
                            &&& (ng.chunks@[header.fragment_id as int] matches Some(c) && c@
                                == payload)
                            &&& (forall|q: int|
                                0 <= q < g.chunks@.len() && q != header.fragment_id as int
                                    ==> ng.chunks@[q] == #[trigger] g.chunks@[q])
                        })
                        &&& (forall|j: int|
                            0 <= j < BUFFER_SIZE && j != slot ==> #[trigger] post.fragments@[j]
                                == pre.fragments@[j])
                    }
                },
                None => {
                    // first chunk: the group record is created now
                    &&& (post.spec_group_at(header.fragment_group_id) matches Some(ng) && {
                        &&& ng.group_id == header.fragment_group_id
                        &&& ng.size == header.fragment_size
                        &&& ng.created_on == now_ms
                        &&& ng.current_size == 1
                        &&& ng.chunks@.len() == header.fragment_size
                        &&& (ng.chunks@[header.fragment_id as int] matches Some(c) && c@
                            == payload)
                        &&& (forall|q: int|
                            0 <= q < header.fragment_size && q != header.fragment_id as int
                                ==> #[trigger] ng.chunks@[q] is None)
                    })
                    &&& (forall|j: int|
                        0 <= j < BUFFER_SIZE && j != slot ==> #[trigger] post.fragments@[j]
                            == pre.fragments@[j] || post.fragments@[j] is None)
                },
            }
        }
    }

    /// What a chunk that completes its group assembles to: every slot of
    /// the pre-state's group, with the arriving payload in its place.
    pub open spec fn spec_completed_parts(
        pre: FragmentationManager,
        header: Header,
        payload: Seq<u8>,
        parts: Seq<Bytes>,
    ) -> bool {
        match pre.spec_group_at(header.fragment_group_id) {
            None => parts.len() == 1 && parts[0]@ == payload,
            Some(g) => {
                if g.chunks@[header.fragment_id as int] is Some {
                    &&& parts.len() == g.size
                    &&& (forall|q: int|
                        0 <= q < g.size ==> ((#[trigger] g.chunks@[q]) matches Some(c)
                            && parts[q]@ == c@))
                } else {
                    &&& parts.len() == g.size
                    &&& parts[header.fragment_id as int]@ == payload
                    &&& (forall|q: int|
                        0 <= q < g.size && q != header.fragment_id as int ==> ((
                        #[trigger] g.chunks@[q]) matches Some(c) && parts[q]@ == c@))
                }
            },
        }
    }

    /// Files one inbound chunk.
    ///
    /// Rejects a chunk whose declared size is zero or whose id is not
    /// below it (`InvalidFragmentId`). The first chunk of a group
    /// creates its record; a chunk for a group that outlived
    /// `GROUP_TIMEOUT_MS` evicts it (`FragmentExpired`); a chunk whose
    /// declared size differs from the stored group's fails
    /// (`FragmentSizeMismatch`); a duplicate chunk changes nothing.
    /// Returns whether the group is now complete.
    pub fn insert_fragment(&mut self, header: &Header, buffer: Bytes, now_ms: u64) -> (r: Result<
        bool,
        NetError,
    >)
        requires
            old(self).wf(),
        ensures
            final(self).wf(),
            final(self).group_seq == old(self).group_seq,
            r == Self::spec_insert_outcome(*old(self), *header, now_ms),
            Self::spec_insert_rel(*old(self), *final(self), *header, buffer@, now_ms),
    {
        if header.fragment_size == 0 {
            return Err(NetError::InvalidFragmentId);
        }

        if header.fragment_id >= header.fragment_size {
            return Err(NetError::InvalidFragmentId);
        }

        let ghost pre = *self;
        let ghost slot = Self::spec_group_slot(header.fragment_group_id);

        // insert the fragment buffer if it does not exist yet
        let mut created = false;
        if self.fragments.is_none(header.fragment_group_id) {
            let mut empty_chunks: Vec<Option<Bytes>> = Vec::new();
            let mut q: u8 = 0;
            while q < header.fragment_size
                invariant
                    q <= header.fragment_size,
                    empty_chunks@.len() == q,
                    forall|t: int| 0 <= t < q ==> empty_chunks@[t] is None,
                    spec_present_count(empty_chunks@) == 0,
                    spec_present_bytes(empty_chunks@) == 0,
                decreases header.fragment_size - q,
            {
                let ghost prev = empty_chunks@;
                empty_chunks.push(None);
                proof {
                    assert(empty_chunks@.drop_last() =~= prev);
                }
                q += 1;
            }
            self.fragments.insert(
                header.fragment_group_id,
                ReceiveFragments {
                    group_id: header.fragment_group_id,
                    chunks: empty_chunks,
                    size: header.fragment_size,
                    current_size: 0,
                    current_bytes: 0,
                    created_on: now_ms,
                },
            );
            created = true;
        }

        if !self.validate_group(header.fragment_group_id, now_ms) {
            self.remove_fragment_group(header.fragment_group_id);
            return Err(NetError::FragmentExpired);
        }

        let buffer_len = buffer.len();
        let mut done = false;
        let mut result: Result<bool, NetError> = Ok(false);

        if let Some(fragment) = self.fragments.get_mut(header.fragment_group_id) {
            if header.fragment_size != fragment.size {
                result = Err(NetError::FragmentSizeMismatch);
            } else {
                let id = header.fragment_id as usize;
                let is_new = fragment.chunks[id].is_none();
                if is_new {
                    let ghost oldchunks = fragment.chunks@;
                    proof {
                        lemma_present_count_missing(oldchunks, id as int);
                        lemma_present_bytes_bounds(oldchunks);
                    }
                    fragment.chunks[id] = Some(buffer);
                    proof {
                        lemma_present_count_fill(oldchunks, id as int, buffer);
                        lemma_present_bytes_fill(oldchunks, id as int, buffer);
                    }
                    fragment.current_size = fragment.current_size + 1;
                    fragment.current_bytes = if fragment.current_bytes <= usize::MAX - buffer_len {
                        fragment.current_bytes + buffer_len
                    } else {
                        usize::MAX
                    };
                }
                done = fragment.current_size == fragment.size;
                result = Ok(done);
            }
        }

        result
    }

    /// Removes a complete group and hands back its chunks in order.
    /// Fails with `FragmentExpired` (evicting the group) when it
    /// outlived its timeout, and with `FragmentIncomplete` when it is
    /// absent or still missing chunks.
    pub fn assemble(&mut self, group_id: u16, now_ms: u64) -> (r: Result<Vec<Bytes>, NetError>)
        requires
            old(self).wf(),
        ensures
            final(self).wf(),
            final(self).group_seq == old(self).group_seq,
            ({
                let slot = Self::spec_group_slot(group_id);
                let old_group = old(self).spec_group_at(group_id);
                match old_group {
                    None => r == Err::<Vec<Bytes>, NetError>(NetError::FragmentIncomplete)
                        && final(self).fragments@ =~= old(self).fragments@,
                    Some(g) => {
                        if g.spec_expired(now_ms) {
                            &&& r == Err::<Vec<Bytes>, NetError>(NetError::FragmentExpired)
                            &&& final(self).fragments@ =~= old(self).fragments@.update(slot, None)
                        } else if !g.spec_done() {
                            &&& r == Err::<Vec<Bytes>, NetError>(NetError::FragmentIncomplete)
                            &&& final(self).fragments@ =~= old(self).fragments@
                        } else {
                            &&& (r matches Ok(parts) && {
                                &&& parts@.len() == g.size
                                &&& (forall|i: int|
                                    0 <= i < g.size ==> Some(#[trigger] parts@[i])
                                        == g.chunks@[i])
                            })
                            &&& final(self).fragments@ =~= old(self).fragments@.update(slot, None)
                        }
                    },
                }
            }),
    {
        if self.fragments.is_none(group_id) {
            return Err(NetError::FragmentIncomplete);
        }

        if !self.validate_group(group_id, now_ms) {
            self.remove_fragment_group(group_id);
            return Err(NetError::FragmentExpired);
        }

        let done = if let Some(fragment) = self.fragments.get(group_id) {
            fragment.is_done()
        } else {
            false
        };
        if !done {
            return Err(NetError::FragmentIncomplete);
        }

        let fragment = match self.fragments.take(group_id) {
            Some(f) => f,
            None => {
                return Err(NetError::FragmentIncomplete);
            },
        };

        proof {
            lemma_present_count_full(fragment.chunks@);
        }

        let ghost stored = fragment.chunks@;
        let mut parts: Vec<Bytes> = Vec::new();
        let mut rest = fragment.chunks;
        while rest.len() > 0
            invariant
                parts@.len() + rest@.len() == stored.len(),
                rest@ =~= stored.subrange(parts@.len() as int, stored.len() as int),
                forall|i: int| 0 <= i < stored.len() ==> stored[i] is Some,
                forall|i: int|
                    0 <= i < parts@.len() ==> Some(#[trigger] parts@[i]) == stored[i],
            decreases rest@.len(),
        {
            let chunk = rest.remove(0);
            match chunk {
                Some(c) => {
                    parts.push(c);
                },
                None => {
                    proof {
                        assert(false);
                    }
                },
            }
        }

        Ok(parts)
    }

    /// The concatenation of a complete group's chunks, if `group_id`
    /// has one: what `assemble` would hand back, flattened.
    pub fn build_fragment(&self, group_id: u16, now_ms: u64) -> (r: Option<Bytes>)
        requires
            self.wf(),
        ensures
            match self.spec_group_at(group_id) {
                Some(g) => {
                    if g.spec_done() && !g.spec_expired(now_ms) {
                        r matches Some(out) && out@ =~= spec_concat_chunks(
                            g.chunks@,
                            g.chunks@.len() as int,
                        ) && out@.len() == g.current_bytes
                    } else {
                        r is None
                    }
                },
                None => r is None,
            },
    {
        if !self.validate_group(group_id, now_ms) {
            return None;
        }
        if let Some(fragment) = self.fragments.get(group_id) {
            if fragment.is_done() {
                proof {
                    lemma_present_count_full(fragment.chunks@);
                }
                let mut out: Bytes = Vec::new();
                let mut i: usize = 0;
                while i < fragment.chunks.len()
                    invariant
                        i <= fragment.chunks@.len(),
                        forall|q: int| 0 <= q < fragment.chunks@.len() ==> fragment.chunks@[q] is Some,
                        out@ =~= spec_concat_chunks(fragment.chunks@, i as int),
                    decreases fragment.chunks@.len() - i,
                {
                    match &fragment.chunks[i] {
                        Some(c) => {
                            let ghost prev = out@;
                            out.extend_from_slice(c.as_slice());
                            proof {
                                assert(out@ =~= prev + c@);
                            }
                        },
                        None => {
                            proof {
                                assert(false);
                            }
                        },
                    }
                    i += 1;
                }
                proof {
                    // a flattened complete group is as long as its byte
                    // counter says: the counter never saturated, since
                    // the flattening itself fits in one allocation
                    lemma_concat_len(fragment.chunks@, fragment.chunks@.len() as int);
                    assert(fragment.chunks@.subrange(0, fragment.chunks@.len() as int)
                        =~= fragment.chunks@);
                }
                let out_len = out.len();
                proof {
                    assert(out_len as int == spec_present_bytes(fragment.chunks@));
                }
                return Some(out);
            }
        }
        None
    }
}

/// A chunk whose filing reported completion leaves a present, complete
/// and unexpired group behind.
pub proof fn lemma_completed_group(
    pre: FragmentationManager,
    post: FragmentationManager,
    header: Header,
    payload: Seq<u8>,
    now_ms: u64,
)
    requires
        pre.wf(),
        post.wf(),
        FragmentationManager::spec_insert_outcome(pre, header, now_ms) == Ok::<bool, NetError>(
            true,
        ),
        FragmentationManager::spec_insert_rel(pre, post, header, payload, now_ms),
    ensures
        post.spec_group_at(header.fragment_group_id) matches Some(g) && g.spec_done()
            && !g.spec_expired(now_ms),
{
    match pre.spec_group_at(header.fragment_group_id) {
        None => {
            assert(header.fragment_size == 1);
        },
        Some(g) => {
            if g.chunks@[header.fragment_id as int] is Some {
                assert(post.spec_group_at(header.fragment_group_id) == Some(g));
            } else {
            }
        },
    }
}

/// What a completing chunk assembles to: every slot of the pre-state's
/// group, with the arriving payload in its place.
pub proof fn lemma_assembled_parts(
    pre: FragmentationManager,
    post: FragmentationManager,
    header: Header,
    payload: Seq<u8>,
    now_ms: u64,
    parts: Seq<Bytes>,
)
    requires
        pre.wf(),
        post.wf(),
        FragmentationManager::spec_insert_outcome(pre, header, now_ms) == Ok::<bool, NetError>(
            true,
        ),
        FragmentationManager::spec_insert_rel(pre, post, header, payload, now_ms),
        post.spec_group_at(header.fragment_group_id) matches Some(g2) && parts.len() == g2.size
            && (forall|i: int| 0 <= i < g2.size ==> Some(#[trigger] parts[i]) == g2.chunks@[i]),
    ensures
        FragmentationManager::spec_completed_parts(pre, header, payload, parts),
{
    let gid = header.fragment_group_id;
    let slot = FragmentationManager::spec_group_slot(gid);
    vstd::arithmetic::div_mod::lemma_mod_bound(gid as int, BUFFER_SIZE as int);
    let g2 = post.spec_group_at(gid).unwrap();
    assert(g2.wf());
    match pre.spec_group_at(gid) {
        None => {
            assert(header.fragment_size == 1);
            assert(header.fragment_id == 0);
            assert(g2.chunks@[0] matches Some(c) && c@ == payload);
            assert(Some(parts[0]) == g2.chunks@[0]);
        },
        Some(g) => {
            assert(g.wf());
            if g.chunks@[header.fragment_id as int] is Some {
                // a duplicate of an already complete group
                assert(post.fragments@ =~= pre.fragments@);
                assert(g2 == g);
                assert(g.spec_done());
                lemma_present_count_full(g.chunks@);
                assert forall|q: int| 0 <= q < g.size implies ((#[trigger] g.chunks@[q]) matches
                    Some(c) && parts[q]@ == c@) by {
                    assert(Some(parts[q]) == g2.chunks@[q]);
                }
            } else {
                // the arriving chunk filled the last empty slot
                assert(g2.spec_done());
                lemma_present_count_full(g2.chunks@);
                assert(parts[header.fragment_id as int]@ == payload) by {
                    assert(Some(parts[header.fragment_id as int]) == g2.chunks@[header.fragment_id
                        as int]);
                }
                assert forall|q: int|
                    0 <= q < g.size && q != header.fragment_id as int implies ((
                #[trigger] g.chunks@[q]) matches Some(c) && parts[q]@ == c@) by {
                    assert(g2.chunks@[q] == g.chunks@[q]);
                    assert(g2.chunks@[q] is Some);
                    assert(Some(parts[q]) == g2.chunks@[q]);
                }
            }
        },
    }
}

/// The first `k` chunks of a group, flattened in order (absent chunks
/// contribute nothing).
pub open spec fn spec_concat_chunks(chunks: Seq<Option<Bytes>>, k: int) -> Seq<u8>
    decreases k,
{
    if k <= 0 {
        Seq::empty()
    } else {
        spec_concat_chunks(chunks, k - 1) + (match chunks[k - 1] {
            Some(c) => c@,
            None => Seq::empty(),
        })
    }
}

} // verus!
