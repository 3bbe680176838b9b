//! Serial-number arithmetic on 16-bit sequence numbers.
//!
//! A sequence `a` counts as less than `b` when the wrapping distance from
//! `a` up to `b` lies in `(0, 32768)`, so comparisons stay meaningful when
//! the counter wraps around.

use vstd::prelude::*;

verus! {

/// Holds when `s1` is newer than `s2` in the serial-number order.
pub open spec fn spec_is_greater(s1: u16, s2: u16) -> bool {
    ||| (s1 > s2 && s1 - s2 <= 32768)
    ||| (s1 < s2 && s2 - s1 > 32768)
}

/// Holds when `s1` is older than `s2` in the serial-number order.
pub open spec fn spec_is_less(s1: u16, s2: u16) -> bool {
    spec_is_greater(s2, s1)
}

/// The sequence that follows `s`: the counter wraps back to zero once it
/// reaches `u16::MAX - 1`.
pub open spec fn spec_next(s: u16) -> u16 {
    if s >= 0xfffe {
        0
    } else {
        (s + 1) as u16
    }
}

/// The sequence that precedes `s` under the same wrap rule.
pub open spec fn spec_previous(s: u16) -> u16 {
    if s == 0 {
        0xfffe
    } else {
        (s - 1) as u16
    }
}

/// The size of the sequence-number space: 16-bit sequences wrap modulo
/// this many values.
pub const SEQUENCE_SPACE: u32 = 0x10000;

/// Wrapping subtraction on sequence numbers, as `u16::wrapping_sub` computes
/// it.
pub open spec fn wrap_sub(a: u16, b: u16) -> u16 {
    vstd::wrapping::u16_specs::wrapping_sub(a, b)
}

/// Wrapping addition on sequence numbers, as `u16::wrapping_add` computes
/// it.
pub open spec fn wrap_add(a: u16, b: u16) -> u16 {
    vstd::wrapping::u16_specs::wrapping_add(a, b)
}

pub struct Sequence {}

impl Sequence {
    pub fn is_greater_then(s1: u16, s2: u16) -> (r: bool)
        ensures
            r == spec_is_greater(s1, s2),
    {
        ((s1 > s2) && (s1 - s2 <= 32768)) || ((s1 < s2) && (s2 - s1 > 32768))
    }

    pub fn is_less_than(s1: u16, s2: u16) -> (r: bool)
        ensures
            r == spec_is_less(s1, s2),
    {
        Sequence::is_greater_then(s2, s1)
    }

    pub fn is_equal_to_or_less_than(s1: u16, s2: u16) -> (r: bool)
        ensures
            r == (s1 == s2 || spec_is_less(s1, s2)),
    {
        if s1 == s2 {
            return true;
        }
        Sequence::is_greater_then(s2, s1)
    }

    pub fn increment(sequence: &mut u16)
        ensures
            *final(sequence) == spec_next(*old(sequence)),
    {
        *sequence = Sequence::next_sequence(*sequence);
    }

    pub fn next_sequence(sequence: u16) -> (r: u16)
        ensures
            r == spec_next(sequence),
    {
        if sequence >= u16::MAX - 1 {
            0
        } else {
            sequence + 1
        }
    }

    pub fn previous_sequence(sequence: u16) -> (r: u16)
        ensures
            r == spec_previous(sequence),
    {
        if sequence == 0 {
            u16::MAX - 1
        } else {
            sequence - 1
        }
    }
}

/// Of any two sequences, either they are equal, or exactly one of them is
/// less than the other: the serial-number order is a strict total order on
/// pairs, so `spec_is_less(a, b)`, `spec_is_less(b, a)` and `a == b` hold
/// an odd number of times (that is, exactly once).
pub proof fn lemma_sequence_trichotomy(a: u16, b: u16)
    ensures
        (spec_is_less(a, b) ^ spec_is_less(b, a) ^ (a == b)) == true,
        a == b ==> !spec_is_less(a, b) && !spec_is_less(b, a),
        spec_is_less(a, b) ==> !spec_is_less(b, a) && a != b,
{
}

} // verus!
