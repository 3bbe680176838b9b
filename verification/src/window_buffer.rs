//! Window-aware ring buffer.
//!
//! On top of the plain ring this buffer records the last inserted sequence.
//! When a newer sequence arrives, every slot belonging to a sequence that
//! fell out of the lookback window is cleared first, so that an occupied
//! slot is meaningful only for sequences within the window ending at the
//! newest insert.

use vstd::arithmetic::div_mod::{
    lemma_fundamental_div_mod, lemma_mod_bound, lemma_mod_multiples_vanish, lemma_small_mod,
    lemma_sub_mod_noop,
};
use vstd::prelude::*;

use crate::sequence::{spec_is_greater, spec_is_less, wrap_add, wrap_sub, Sequence, SEQUENCE_SPACE};
use crate::sequence_buffer::SequenceBuffer;

verus! {

/// How many eviction steps lie between slot `j` and the slot of `start`:
/// the offset of `j` in the cyclic walk `start, start + 1, ...` reduced
/// modulo the ring size.
pub open spec fn spec_slot_offset(j: int, start: u16, size: int) -> int {
    (j - (start as int % size)) % size
}

pub struct WindowSequenceBuffer<T> {
    pub buffer: SequenceBuffer<T>,
    pub window_size: u16,
    /// Last sequence number to be inserted.
    pub last_sequence: Option<u16>,
}

impl<T> WindowSequenceBuffer<T> {
    /// The ring is well formed, the window is strictly smaller than the
    /// ring, and the ring size divides the sequence space, so that slots
    /// of consecutive sequences stay consecutive across the wrap.
    pub open spec fn wf(&self) -> bool {
        &&& self.buffer.wf()
        &&& self.window_size < self.buffer.partition_by
        &&& SEQUENCE_SPACE as int % (self.buffer.partition_by as int) == 0
    }

    pub open spec fn size(&self) -> int {
        self.buffer.partition_by as int
    }

    /// The slot contents of the underlying ring.
    pub open spec fn view(&self) -> Seq<Option<T>> {
        self.buffer@
    }

    /// Whether inserting `seq` clears slot `j`: a recorded last sequence
    /// exists, `seq` is newer, and `j` lies within the stretch of slots
    /// walked from the oldest windowed position.
    pub open spec fn spec_evicted(&self, seq: u16, j: int) -> bool {
        match self.last_sequence {
            Some(l) => spec_is_greater(seq, l) && spec_slot_offset(
                j,
                wrap_sub(l, self.window_size),
                self.size(),
            ) < wrap_sub(seq, l) as int,
            None => false,
        }
    }

    /// The window must be strictly smaller than the ring, and the ring
    /// size must divide `SEQUENCE_SPACE`: slots are `sequence mod size`,
    /// and only for such sizes do the slots of consecutive sequences
    /// stay consecutive when the 16-bit counter wraps — which the
    /// eviction guarantee of `insert` rests on. `BUFFER_SIZE` satisfies
    /// both.
    pub fn with_size(size: u16, window_size: u16) -> (r: Self)
        requires
            size > 0,
            window_size < size,
            SEQUENCE_SPACE as int % (size as int) == 0,
        ensures
            r.wf(),
            r.buffer.partition_by == size,
            r.window_size == window_size,
            r.last_sequence is None,
            forall|j: int| 0 <= j < size ==> r@[j] is None,
    {
        WindowSequenceBuffer {
            buffer: SequenceBuffer::with_size(size),
            window_size,
            last_sequence: None,
        }
    }

    pub fn sequence_to_index(&self, sequence: u16) -> (r: usize)
        requires
            self.wf(),
        ensures
            r == self.buffer.spec_index_of(sequence),
            r < self.buffer.partition_by,
    {
        self.buffer.sequence_to_index(sequence)
    }

    /// Inserts `sequence`, first clearing every slot that the sliding
    /// window passed over since the previous insert.
    ///
    /// Among the sequences of the previous window, exactly those older
    /// than `sequence - window_size` lose their slot; the rest keep it
    /// untouched (unless they share the slot of `sequence` itself).
    pub fn insert(&mut self, sequence: u16, value: T)
        requires
            old(self).wf(),
        ensures
            final(self).wf(),
            final(self).buffer.partition_by == old(self).buffer.partition_by,
            final(self).window_size == old(self).window_size,
            final(self).last_sequence == Some(sequence),
            final(self)@[old(self).buffer.spec_index_of(sequence)] == Some(value),
            forall|j: int|
                0 <= j < old(self).size() && j != old(self).buffer.spec_index_of(sequence)
                    ==> final(self)@[j] == (if old(self).spec_evicted(sequence, j) {
                    None::<T>
                } else {
                    old(self)@[j]
                }),
            forall|s: u16|
                (match old(self).last_sequence {
                    Some(l) => spec_is_greater(sequence, l) && wrap_sub(l, s) < old(
                        self,
                    ).window_size && old(self).buffer.spec_index_of(s) != old(
                        self,
                    ).buffer.spec_index_of(sequence),
                    None => false,
                }) ==> final(self)@[old(self).buffer.spec_index_of(s)] == (if spec_is_less(
                    s,
                    wrap_sub(sequence, old(self).window_size),
                ) {
                    None::<T>
                } else {
                    old(self)@[old(self).buffer.spec_index_of(s)]
                }),
    {
        let ghost pre = *self;
        if let Some(last_seq) = self.last_sequence {
            if Sequence::is_greater_then(sequence, last_seq) {
                let diff = sequence.wrapping_sub(last_seq);
                let start = last_seq.wrapping_sub(self.window_size);

                let mut i: u16 = 0;
                while i < diff
                    invariant
                        self.wf(),
                        self.buffer.partition_by == pre.buffer.partition_by,
                        self.window_size == pre.window_size,
                        self.last_sequence == pre.last_sequence,
                        i <= diff,
                        start == wrap_sub(last_seq, pre.window_size),
                        self@.len() == pre@.len(),
                        forall|j: int|
                            0 <= j < pre.size() ==> self@[j] == (if spec_slot_offset(
                                j,
                                start,
                                pre.size(),
                            ) < i as int {
                                None::<T>
                            } else {
                                pre@[j]
                            }),
                    decreases diff - i,
                {
                    let target = i.wrapping_add(start);
                    proof {
                        lemma_cyclic_slot(start, i, pre.size());
                        assert(wrap_add(start, i) == wrap_add(i, start));
                    }
                    self.remove(target);
                    proof {
                        let size = pre.size();
                        let jt = target as int % size;
                        assert forall|j: int| 0 <= j < size implies self@[j] == (if spec_slot_offset(
                            j,
                            start,
                            size,
                        ) < i as int + 1 {
                            None::<T>
                        } else {
                            pre@[j]
                        }) by {
                            lemma_offset_determines_slot(j, start, size);
                            lemma_offset_determines_slot(jt, start, size);
                            lemma_mod_bound(j - (start as int % size), size);
                        }
                    }
                    i = i + 1;
                }
            }
        }

        self.last_sequence = Some(sequence);
        self.buffer.insert(sequence, value);

        proof {
            lemma_eviction_matches_serial_order::<T>(pre, *self, sequence);
        }
    }

    pub fn remove(&mut self, sequence: u16)
        requires
            old(self).wf(),
        ensures
            final(self).wf(),
            final(self).buffer.partition_by == old(self).buffer.partition_by,
            final(self).window_size == old(self).window_size,
            final(self).last_sequence == old(self).last_sequence,
            final(self)@ =~= old(self)@.update(old(self).buffer.spec_index_of(sequence), None),
    {
        self.buffer.remove(sequence)
    }

    pub fn is_some(&self, sequence: u16) -> (r: bool)
        requires
            self.wf(),
        ensures
            r == self@[self.buffer.spec_index_of(sequence)] is Some,
    {
        self.buffer.is_some(sequence)
    }

    pub fn is_none(&self, sequence: u16) -> (r: bool)
        requires
            self.wf(),
        ensures
            r == self@[self.buffer.spec_index_of(sequence)] is None,
    {
        self.buffer.is_none(sequence)
    }

    pub fn take(&mut self, sequence: u16) -> (r: Option<T>)
        requires
            old(self).wf(),
        ensures
            final(self).wf(),
            final(self).buffer.partition_by == old(self).buffer.partition_by,
            final(self).window_size == old(self).window_size,
            final(self).last_sequence == old(self).last_sequence,
            r == old(self)@[old(self).buffer.spec_index_of(sequence)],
            final(self)@ =~= old(self)@.update(old(self).buffer.spec_index_of(sequence), None),
    {
        self.buffer.take(sequence)
    }

    pub fn get(&self, sequence: u16) -> (r: Option<&T>)
        requires
            self.wf(),
        ensures
            match r {
                Some(v) => self@[self.buffer.spec_index_of(sequence)] == Some(*v),
                None => self@[self.buffer.spec_index_of(sequence)] is None,
            },
    {
        self.buffer.get(sequence)
    }

    pub fn get_mut(&mut self, sequence: u16) -> (r: Option<&mut T>)
        requires
            old(self).wf(),
        ensures
            final(self).wf(),
            final(self).buffer.partition_by == old(self).buffer.partition_by,
            final(self).window_size == old(self).window_size,
            final(self).last_sequence == old(self).last_sequence,
            match r {
                Some(v) => old(self)@[old(self).buffer.spec_index_of(sequence)] == Some(*v)
                    && final(self)@ =~= old(self)@.update(
                    old(self).buffer.spec_index_of(sequence),
                    Some(*final(v)),
                ),
                None => old(self)@[old(self).buffer.spec_index_of(sequence)] is None
                    && final(self)@ =~= old(self)@,
            },
    {
        self.buffer.get_mut(sequence)
    }
}

/// Wrapping subtraction agrees with plain subtraction modulo any divisor
/// of the sequence space.
proof fn lemma_wrap_sub_mod(x: u16, y: u16, size: int)
    requires
        0 < size,
        0x10000int % size == 0,
    ensures
        (wrap_sub(x, y) as int) % size == (x as int - y as int) % size,
{
    if x < y {
        lemma_fundamental_div_mod(0x10000int, size);
        lemma_mod_multiples_vanish(0x10000int / size, x as int - y as int, size);
    }
}

/// Wrapping addition agrees with plain addition modulo any divisor of the
/// sequence space.
proof fn lemma_wrap_add_mod(x: u16, y: u16, size: int)
    requires
        0 < size,
        0x10000int % size == 0,
    ensures
        (wrap_add(x, y) as int) % size == (x as int + y as int) % size,
{
    if x + y > 0xffff {
        let q = 0x10000int / size;
        lemma_fundamental_div_mod(0x10000int, size);
        assert(size * -q == -(size * q)) by (nonlinear_arith);
        lemma_mod_multiples_vanish(-q, x as int + y as int, size);
    }
}

/// A divisor of the sequence space that fits in `u16` is at most half of
/// it.
proof fn lemma_divisor_at_most_half(size: int)
    requires
        0 < size < 0x10000,
        0x10000int % size == 0,
    ensures
        size <= 0x8000,
{
    let q = 0x10000int / size;
    lemma_fundamental_div_mod(0x10000int, size);
    assert(size * q == 0x10000int);
    assert(size <= 0x8000) by (nonlinear_arith)
        requires
            size * q == 0x10000int,
            0 < size < 0x10000int,
    ;
}

/// The offset of a slot determines the slot: walking `offset` steps from
/// the start slot lands back on it.
proof fn lemma_offset_determines_slot(j: int, start: u16, size: int)
    requires
        0 < size,
        0 <= j < size,
    ensures
        j == (start as int % size + spec_slot_offset(j, start, size)) % size,
{
    let s0 = start as int % size;
    lemma_mod_bound(start as int, size);
    vstd::arithmetic::div_mod::lemma_add_mod_noop_right(s0, j - s0, size);
    lemma_small_mod(j as nat, size as nat);
}

/// The slot of the `i`th sequence walked from `start` sits at offset
/// `i % size` in the cyclic walk.
proof fn lemma_cyclic_slot(start: u16, i: u16, size: int)
    requires
        0 < size,
        0x10000int % size == 0,
    ensures
        spec_slot_offset(wrap_add(start, i) as int % size, start, size) == i as int % size,
        0 <= i as int % size < size,
        i < size ==> i as int % size == i as int,
{
    let x = wrap_add(start, i);
    lemma_wrap_add_mod(start, i, size);
    lemma_sub_mod_noop(x as int, start as int, size);
    lemma_mod_bound(x as int, size);
    lemma_mod_bound(start as int, size);
    assert((x as int % size - start as int % size) % size == (x as int - start as int) % size);
    assert((x as int % size) % size == x as int % size) by {
        lemma_small_mod((x as int % size) as nat, size as nat);
    }
    assert(spec_slot_offset(x as int % size, start, size) == (x as int - start as int) % size);
    assert((x as int - start as int) % size == i as int % size) by {
        lemma_sub_mod_noop(x as int, start as int, size);
        lemma_wrap_add_mod(start, i, size);
        vstd::arithmetic::div_mod::lemma_add_mod_noop(start as int, i as int, size);
        lemma_sub_mod_noop(start as int + i as int, start as int, size);
        vstd::arithmetic::div_mod::lemma_mod_twice(i as int, size);
    }
    lemma_mod_bound(i as int, size);
    if i < size {
        lemma_small_mod(i as nat, size as nat);
    }
}

/// Slot-level eviction coincides with the serial-number statement: among
/// the sequences of the previous window, exactly those older than
/// `seq - window_size` are evicted by inserting `seq`.
proof fn lemma_eviction_matches_serial_order<T>(
    pre: WindowSequenceBuffer<T>,
    post: WindowSequenceBuffer<T>,
    seq: u16,
)
    requires
        pre.wf(),
        post.wf(),
        post.buffer.partition_by == pre.buffer.partition_by,
        post.window_size == pre.window_size,
        post@.len() == pre@.len(),
        forall|j: int|
            0 <= j < pre.size() && j != pre.buffer.spec_index_of(seq) ==> post@[j] == (if pre.spec_evicted(
                seq,
                j,
            ) {
                None::<T>
            } else {
                pre@[j]
            }),
    ensures
        forall|s: u16|
            (match pre.last_sequence {
                Some(l) => spec_is_greater(seq, l) && wrap_sub(l, s) < pre.window_size
                    && pre.buffer.spec_index_of(s) != pre.buffer.spec_index_of(seq),
                None => false,
            }) ==> post@[pre.buffer.spec_index_of(s)] == (if spec_is_less(
                s,
                wrap_sub(seq, pre.window_size),
            ) {
                None::<T>
            } else {
                pre@[pre.buffer.spec_index_of(s)]
            }),
{
    let size = pre.size();
    let w = pre.window_size;
    lemma_divisor_at_most_half(size);
    if pre.last_sequence is Some {
        let l = pre.last_sequence->0;
        if spec_is_greater(seq, l) {
            let diff = wrap_sub(seq, l) as int;
            let start = wrap_sub(l, w);
            assert forall|s: u16|
                wrap_sub(l, s) < w && pre.buffer.spec_index_of(s) != pre.buffer.spec_index_of(
                    seq,
                ) implies post@[pre.buffer.spec_index_of(s)] == (if spec_is_less(
                s,
                wrap_sub(seq, w),
            ) {
                None::<T>
            } else {
                pre@[pre.buffer.spec_index_of(s)]
            }) by {
                let a = wrap_sub(l, s) as int;
                let j = pre.buffer.spec_index_of(s);
                lemma_mod_bound(s as int, size);
                // The slot offset of s from the eviction start is w - a.
                assert(spec_slot_offset(j, start, size) == w - a) by {
                    lemma_sub_mod_noop(s as int, start as int, size);
                    lemma_wrap_sub_mod(s, start, size);
                    assert((s as int % size) % size == s as int % size) by {
                        lemma_small_mod((s as int % size) as nat, size as nat);
                    }
                    // wrap distance from start up to s is exactly w - a
                    assert(wrap_sub(s, start) == (w - a) as u16) by {
                        lemma_wrap_chain(l, s, w);
                    }
                    lemma_wrap_sub_mod(s, start, size);
                    lemma_small_mod((w - a) as nat, size as nat);
                }
                // Serial comparison against seq - w matches the offset test.
                assert(spec_is_less(s, wrap_sub(seq, w)) <==> (w - a < diff)) by {
                    lemma_serial_eviction_boundary(l, s, seq, w);
                }
                assert(pre.spec_evicted(seq, j) == (w - a < diff));
            }
        }
    }
}

/// The wrapping distance from `l - w` up to `s` is `w - a` when `s` lies
/// `a < w` steps behind `l`.
proof fn lemma_wrap_chain(l: u16, s: u16, w: u16)
    requires
        (wrap_sub(l, s) as int) < w,
    ensures
        wrap_sub(s, wrap_sub(l, w)) == (w - wrap_sub(l, s)) as u16,
{
}

/// For a sequence `s` inside the window `(l - w, l]` and a newer sequence
/// `seq`, being older than `seq - w` is the same as lying within the
/// stretch of evicted positions.
proof fn lemma_serial_eviction_boundary(l: u16, s: u16, seq: u16, w: u16)
    requires
        spec_is_greater(seq, l),
        (wrap_sub(l, s) as int) < w,
        w < 0x8000,
    ensures
        spec_is_less(s, wrap_sub(seq, w)) <==> (w - wrap_sub(l, s) < wrap_sub(seq, l)),
{
}

} // verus!
