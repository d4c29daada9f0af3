//! Comparing single-precision numbers by their bits.
//!
//! The game's day lengths are single-precision floats. What the splitter asks
//! of them is only how they compare, and that can be read off their bits: the
//! bits without the sign order the magnitudes.
use vstd::prelude::*;

verus! {

/// The bits of the number without its sign.
pub open spec fn magnitude(bits: u32) -> int {
    bits as int % 0x8000_0000
}

/// Whether the bits are not a number at all: beyond those of infinity.
pub open spec fn not_a_number(bits: u32) -> bool {
    magnitude(bits) > 0x7F80_0000
}

/// A whole number that orders as the float does. The two zeros are one.
pub open spec fn rank(bits: u32) -> int {
    if bits >= 0x8000_0000 {
        -magnitude(bits)
    } else {
        magnitude(bits)
    }
}

/// Whether the two compare equal as floats.
pub open spec fn equal(a: u32, b: u32) -> bool {
    !not_a_number(a) && !not_a_number(b) && rank(a) == rank(b)
}

/// Whether the two add up to more than zero: a sum rounds to zero only where the
/// two cancel exactly.
pub open spec fn positive_sum(a: u32, b: u32) -> bool {
    !not_a_number(a) && !not_a_number(b) && rank(a) > -rank(b)
}

fn ranked(bits: u32) -> (rank: Option<i64>)
    ensures
        rank == if not_a_number(bits) {
            None
        } else {
            Some(self::rank(bits) as i64)
        },
        rank matches Some(r) ==> -0x8000_0000 < r < 0x8000_0000 && r == self::rank(bits),
{
    let magnitude: u32 = bits % 0x8000_0000;
    if magnitude > 0x7F80_0000 {
        None
    } else if bits >= 0x8000_0000 {
        Some(-(magnitude as i64))
    } else {
        Some(magnitude as i64)
    }
}

/// Whether the two compare equal as floats.
pub fn floats_equal(a: u32, b: u32) -> (same: bool)
    ensures
        same == equal(a, b),
{
    match (ranked(a), ranked(b)) {
        (Some(x), Some(y)) => x == y,
        _ => false,
    }
}

/// Whether the two add up to more than zero.
pub fn sum_is_positive(a: u32, b: u32) -> (positive: bool)
    ensures
        positive == positive_sum(a, b),
{
    match (ranked(a), ranked(b)) {
        (Some(x), Some(y)) => x > -y,
        _ => false,
    }
}

/// Whether the float is at most zero. What is not a number is not.
pub open spec fn at_most_zero(bits: u32) -> bool {
    !not_a_number(bits) && rank(bits) <= 0
}

/// Whether the bits are of one of the infinities.
pub open spec fn infinite(bits: u32) -> bool {
    magnitude(bits) == 0x7F80_0000
}

/// Whether the two add up to at most zero: a sum rounds to zero only where the
/// two cancel exactly, and two opposite infinities add up to no number at all.
pub open spec fn sum_at_most_zero(a: u32, b: u32) -> bool {
    &&& !not_a_number(a)
    &&& !not_a_number(b)
    &&& rank(a) <= -rank(b)
    &&& !(infinite(a) && infinite(b) && rank(a) == -rank(b))
}

/// Whether the float is at most zero.
pub fn sure_not_positive(bits: u32) -> (is: bool)
    ensures
        is == at_most_zero(bits),
{
    match ranked(bits) {
        Some(x) => x <= 0,
        None => false,
    }
}

/// Whether the two add up to at most zero.
pub fn sum_never_positive(a: u32, b: u32) -> (is: bool)
    ensures
        is == sum_at_most_zero(a, b),
{
    match (ranked(a), ranked(b)) {
        (Some(x), Some(y)) => {
            let opposite = a % 0x8000_0000 == 0x7F80_0000 && b % 0x8000_0000 == 0x7F80_0000 && x
                == -y;
            x <= -y && !opposite
        },
        _ => false,
    }
}

} // verus!
