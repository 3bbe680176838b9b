//! Single-bit access on 32-bit ack fields.

use bit_field::BitField;
use vstd::prelude::*;

verus! {

/// Whether bit `bit` (0 = least significant) of `v` is set.
pub open spec fn spec_bit32(v: u32, bit: u32) -> bool {
    v & (1u32 << bit) != 0
}

/// Relies on bit_field's `BitField::get_bit` for `u32`: the bit at `bit`,
/// counting from the least significant; it panics for `bit >= 32`.
#[verifier::external_body]
pub fn get_bit32(v: u32, bit: usize) -> (r: bool)
    requires
        bit < 32,
    ensures
        r == spec_bit32(v, bit as u32),
{
    v.get_bit(bit)
}

/// Relies on bit_field's `BitField::set_bit` for `u32`: the value with bit
/// `bit` forced to `value`; it panics for `bit >= 32`.
#[verifier::external_body]
pub fn set_bit32(v: u32, bit: usize, value: bool) -> (r: u32)
    requires
        bit < 32,
    ensures
        r == (if value {
            v | (1u32 << bit as u32)
        } else {
            v & !(1u32 << bit as u32)
        }),
{
    let mut x = v;
    x.set_bit(bit, value);
    x
}

/// Setting a bit leaves every other bit alone and makes that bit match
/// the given value.
pub proof fn lemma_set_bit32(v: u32, bit: u32, value: bool)
    by (bit_vector)
    requires
        bit < 32,
    ensures
        value ==> forall|i: u32|
            i < 32 ==> #[trigger] spec_bit32(v | (1u32 << bit), i) == (i == bit || spec_bit32(
                v,
                i,
            )),
        !value ==> forall|i: u32|
            i < 32 ==> #[trigger] spec_bit32(v & !(1u32 << bit), i) == (i != bit && spec_bit32(
                v,
                i,
            )),
{
}

/// The zero value has no bit set.
pub proof fn lemma_zero_bits32()
    by (bit_vector)
    ensures
        forall|i: u32| i < 32 ==> !spec_bit32(0u32, i),
{
}

} // verus!
