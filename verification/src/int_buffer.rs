//! Little-endian integer codec with an advancing cursor.
//!
//! An `IntBuffer` keeps an index into a byte slice and reads or writes
//! `u8`/`u16`/`u32`/`u64` values and raw slices at that index, moving the
//! index past what was consumed or produced.

use vstd::prelude::*;

verus! {

/// The `u16` encoded little-endian by the two bytes `b0` (low) and `b1`.
pub open spec fn spec_u16_le(b0: u8, b1: u8) -> u16 {
    (b0 as u16) | ((b1 as u16) << 8)
}

/// The `u32` encoded little-endian by four bytes, lowest first.
pub open spec fn spec_u32_le(b0: u8, b1: u8, b2: u8, b3: u8) -> u32 {
    (b0 as u32) | ((b1 as u32) << 8) | ((b2 as u32) << 16) | ((b3 as u32) << 24)
}

/// The `u64` encoded little-endian by eight bytes, lowest first.
pub open spec fn spec_u64_le(
    b0: u8,
    b1: u8,
    b2: u8,
    b3: u8,
    b4: u8,
    b5: u8,
    b6: u8,
    b7: u8,
) -> u64 {
    (b0 as u64) | ((b1 as u64) << 8) | ((b2 as u64) << 16) | ((b3 as u64) << 24) | ((b4
        as u64) << 32) | ((b5 as u64) << 40) | ((b6 as u64) << 48) | ((b7 as u64) << 56)
}

/// Byte `k` (0 = lowest) of the little-endian encoding of `v`.
pub open spec fn spec_le_byte(v: u64, k: int) -> u8 {
    (v >> (8 * k)) as u8
}

/// Decoding the two little-endian bytes of a `u16` gives the value back.
pub proof fn lemma_u16_le_round_trip(v: u16)
    by (bit_vector)
    ensures
        spec_u16_le(spec_le_byte(v as u64, 0), spec_le_byte(v as u64, 1)) == v,
{
}

/// Decoding the four little-endian bytes of a `u32` gives the value back.
pub proof fn lemma_u32_le_round_trip(v: u32)
    by (bit_vector)
    ensures
        spec_u32_le(
            spec_le_byte(v as u64, 0),
            spec_le_byte(v as u64, 1),
            spec_le_byte(v as u64, 2),
            spec_le_byte(v as u64, 3),
        ) == v,
{
}

/// Decoding the eight little-endian bytes of a `u64` gives the value back.
pub proof fn lemma_u64_le_round_trip(v: u64)
    by (bit_vector)
    ensures
        spec_u64_le(
            spec_le_byte(v, 0),
            spec_le_byte(v, 1),
            spec_le_byte(v, 2),
            spec_le_byte(v, 3),
            spec_le_byte(v, 4),
            spec_le_byte(v, 5),
            spec_le_byte(v, 6),
            spec_le_byte(v, 7),
        ) == v,
{
}

#[derive(Default)]
pub struct IntBuffer {
    pub index: usize,
}

impl IntBuffer {
    #[inline]
    pub fn new_at(index: usize) -> (r: Self)
        ensures
            r.index == index,
    {
        Self { index }
    }

    #[inline]
    pub fn jump(&mut self, length: usize)
        requires
            old(self).index + length <= usize::MAX,
        ensures
            final(self).index == old(self).index + length,
    {
        self.index += length
    }

    #[inline]
    pub fn goto(&mut self, index: usize)
        ensures
            final(self).index == index,
    {
        self.index = index
    }

    #[inline]
    pub fn reset(&mut self)
        ensures
            final(self).index == 0,
    {
        self.index = 0;
    }

    #[inline]
    pub fn write_slice(&mut self, v: &[u8], data: &mut [u8])
        requires
            old(self).index + v@.len() <= old(data)@.len(),
        ensures
            final(self).index == old(self).index + v@.len(),
            final(data)@.len() == old(data)@.len(),
            final(data)@ =~= old(data)@.subrange(0, old(self).index as int) + v@ + old(
                data,
            )@.subrange(old(self).index + v@.len(), old(data)@.len() as int),
    {
        let mut i: usize = 0;
        while i < v.len()
            invariant
                i <= v@.len(),
                self.index == old(self).index + i,
                old(self).index + v@.len() <= data@.len(),
                data@.len() == old(data)@.len(),
                forall|j: int|
                    0 <= j < data@.len() && !(old(self).index <= j < old(self).index + i)
                        ==> data@[j] == old(data)@[j],
                forall|j: int|
                    0 <= j < i ==> data@[old(self).index + j] == v@[j],
            decreases v@.len() - i,
        {
            data[self.index] = v[i];
            self.index += 1;
            i += 1;
        }
    }

    #[inline]
    pub fn write_u64(&mut self, v: u64, data: &mut [u8])
        requires
            old(self).index + 8 <= old(data)@.len(),
        ensures
            final(self).index == old(self).index + 8,
            final(data)@.len() == old(data)@.len(),
            forall|j: int|
                0 <= j < old(data)@.len() && !(old(self).index <= j < old(self).index + 8)
                    ==> final(data)@[j] == old(data)@[j],
            forall|j: int|
                old(self).index <= j < old(self).index + 8 ==> #[trigger] final(data)@[j]
                    == spec_le_byte(v, j - old(self).index),
    {
        data[self.index] = v as u8;
        self.index += 1;
        data[self.index] = (v >> 8) as u8;
        self.index += 1;
        data[self.index] = (v >> 16) as u8;
        self.index += 1;
        data[self.index] = (v >> 24) as u8;
        self.index += 1;

        data[self.index] = (v >> 32) as u8;
        self.index += 1;
        data[self.index] = (v >> 40) as u8;
        self.index += 1;
        data[self.index] = (v >> 48) as u8;
        self.index += 1;
        data[self.index] = (v >> 56) as u8;
        self.index += 1;

        proof {
            assert(v >> 0 == v) by (bit_vector);
        }
    }

    #[inline]
    pub fn read_u64(&mut self, data: &[u8]) -> (r: u64)
        requires
            old(self).index + 8 <= data@.len(),
        ensures
            final(self).index == old(self).index + 8,
            r == spec_u64_le(
                data@[old(self).index as int],
                data@[old(self).index + 1],
                data@[old(self).index + 2],
                data@[old(self).index + 3],
                data@[old(self).index + 4],
                data@[old(self).index + 5],
                data@[old(self).index + 6],
                data@[old(self).index + 7],
            ),
    {
        let value = (data[self.index] as u64) | (data[self.index + 1] as u64) << 8 | (data[self.index
            + 2] as u64) << 16 | (data[self.index + 3] as u64) << 24 | (data[self.index + 4]
            as u64) << 32 | (data[self.index + 5] as u64) << 40 | (data[self.index + 6] as u64)
            << 48 | (data[self.index + 7] as u64) << 56;
        self.index += 8;
        value
    }

    #[inline]
    pub fn write_u32(&mut self, v: u32, data: &mut [u8])
        requires
            old(self).index + 4 <= old(data)@.len(),
        ensures
            final(self).index == old(self).index + 4,
            final(data)@.len() == old(data)@.len(),
            forall|j: int|
                0 <= j < old(data)@.len() && !(old(self).index <= j < old(self).index + 4)
                    ==> final(data)@[j] == old(data)@[j],
            forall|j: int|
                old(self).index <= j < old(self).index + 4 ==> #[trigger] final(data)@[j]
                    == spec_le_byte(v as u64, j - old(self).index),
    {
        data[self.index] = v as u8;
        self.index += 1;
        data[self.index] = (v >> 8) as u8;
        self.index += 1;
        data[self.index] = (v >> 16) as u8;
        self.index += 1;
        data[self.index] = (v >> 24) as u8;
        self.index += 1;

        proof {
            lemma_u32_le_bytes(v);
        }
    }

    #[inline]
    pub fn read_u32(&mut self, data: &[u8]) -> (r: u32)
        requires
            old(self).index + 4 <= data@.len(),
        ensures
            final(self).index == old(self).index + 4,
            r == spec_u32_le(
                data@[old(self).index as int],
                data@[old(self).index + 1],
                data@[old(self).index + 2],
                data@[old(self).index + 3],
            ),
    {
        let value = (data[self.index] as u32) | (data[self.index + 1] as u32) << 8 | (data[self.index
            + 2] as u32) << 16 | (data[self.index + 3] as u32) << 24;
        self.index += 4;
        value
    }

    #[inline]
    pub fn write_u16(&mut self, v: u16, data: &mut [u8])
        requires
            old(self).index + 2 <= old(data)@.len(),
        ensures
            final(self).index == old(self).index + 2,
            final(data)@.len() == old(data)@.len(),
            forall|j: int|
                0 <= j < old(data)@.len() && !(old(self).index <= j < old(self).index + 2)
                    ==> final(data)@[j] == old(data)@[j],
            forall|j: int|
                old(self).index <= j < old(self).index + 2 ==> #[trigger] final(data)@[j]
                    == spec_le_byte(v as u64, j - old(self).index),
    {
        data[self.index] = v as u8;
        self.index += 1;
        data[self.index] = (v >> 8) as u8;
        self.index += 1;

        proof {
            lemma_u16_le_bytes(v);
        }
    }

    #[inline]
    pub fn read_u16(&mut self, data: &[u8]) -> (r: u16)
        requires
            old(self).index + 2 <= data@.len(),
        ensures
            final(self).index == old(self).index + 2,
            r == spec_u16_le(data@[old(self).index as int], data@[old(self).index + 1]),
    {
        let value = (data[self.index] as u16) | (data[self.index + 1] as u16) << 8;
        self.index += 2;
        value
    }

    #[inline]
    pub fn write_u8(&mut self, v: u8, data: &mut [u8])
        requires
            old(self).index + 1 <= old(data)@.len(),
        ensures
            final(self).index == old(self).index + 1,
            final(data)@.len() == old(data)@.len(),
            final(data)@ =~= old(data)@.update(old(self).index as int, v),
    {
        data[self.index] = v;
        self.index += 1;
    }

    #[inline]
    pub fn read_u8(&mut self, data: &[u8]) -> (r: u8)
        requires
            old(self).index + 1 <= data@.len(),
        ensures
            final(self).index == old(self).index + 1,
            r == data@[old(self).index as int],
    {
        let value = data[self.index];
        self.index += 1;
        value
    }

    /// Packs two 4-bit values into one byte: `v1` in the low nibble and the
    /// low four bits of `v2` in the high nibble.
    #[inline]
    pub fn u4_to_u8(v1: u8, v2: u8) -> (r: u8)
        requires
            v1 < 16,
        ensures
            r == (v1 | (v2 << 4)) as u8,
    {
        v1 | v2 << 4
    }

    /// Splits a byte into its low and high nibbles.
    #[inline]
    pub fn u8_to_u4(byte: u8) -> (r: (u8, u8))
        ensures
            r.0 == byte & 0x0f,
            r.1 == byte >> 4,
    {
        (byte & 0x0F, byte >> 4)
    }
}

/// The truncated shift bytes of a `u16` match `spec_le_byte` of its
/// widening to `u64`.
proof fn lemma_u16_le_bytes(v: u16)
    by (bit_vector)
    ensures
        v as u8 == spec_le_byte(v as u64, 0),
        (v >> 8) as u8 == spec_le_byte(v as u64, 1),
{
}

/// The truncated shift bytes of a `u32` match `spec_le_byte` of its
/// widening to `u64`.
proof fn lemma_u32_le_bytes(v: u32)
    by (bit_vector)
    ensures
        v as u8 == spec_le_byte(v as u64, 0),
        (v >> 8) as u8 == spec_le_byte(v as u64, 1),
        (v >> 16) as u8 == spec_le_byte(v as u64, 2),
        (v >> 24) as u8 == spec_le_byte(v as u64, 3),
{
}

} // verus!
