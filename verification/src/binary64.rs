//! The order of binary64 numbers, read off their bit patterns.
//!
//! A number is carried as the 64 bits of its IEEE 754 binary64 form: the sign
//! in the top bit, below it the exponent and the fraction, which together give
//! the magnitude. Among the numbers of one sign a larger magnitude is a number
//! further from zero; a magnitude above that of infinity is no number (NaN).

use vstd::prelude::*;

verus! {

/// The bit of the sign.
pub const SIGN_BIT: u64 = 0x8000_0000_0000_0000;

/// The bit pattern of positive infinity.
pub const INFINITY: u64 = 0x7ff0_0000_0000_0000;

/// The bit pattern of positive zero.
pub const ZERO: u64 = 0;

/// Whether the sign bit is set.
pub open spec fn is_negative(bits: u64) -> bool {
    bits >= SIGN_BIT
}

/// The bits below the sign.
pub open spec fn magnitude(bits: u64) -> u64 {
    if bits >= SIGN_BIT {
        (bits - SIGN_BIT) as u64
    } else {
        bits
    }
}

/// Whether the bits are those of no number.
pub open spec fn is_nan(bits: u64) -> bool {
    magnitude(bits) > INFINITY
}

/// The place of a number on the number line, counted in magnitudes: the two
/// zeros share the place 0.
pub open spec fn place(bits: u64) -> int {
    if is_negative(bits) {
        -(magnitude(bits) as int)
    } else {
        magnitude(bits) as int
    }
}

/// The comparison `a < b` of IEEE 754: false where either is no number, and
/// between the two zeros.
pub open spec fn less_than(a: u64, b: u64) -> bool {
    !is_nan(a) && !is_nan(b) && place(a) < place(b)
}

/// The place of a bit pattern in the total order of IEEE 754: negative before
/// positive, negative zero before positive zero, and what is no number at the
/// two ends, by its sign.
pub open spec fn total_place(bits: u64) -> int {
    if is_negative(bits) {
        -(magnitude(bits) as int) - 1
    } else {
        magnitude(bits) as int
    }
}

/// The bits below the sign.
pub fn magnitude_of(bits: u64) -> (m: u64)
    ensures
        m == magnitude(bits),
{
    if bits >= SIGN_BIT {
        bits - SIGN_BIT
    } else {
        bits
    }
}

/// Whether `a < b` as numbers.
pub fn is_less(a: u64, b: u64) -> (r: bool)
    ensures
        r == less_than(a, b),
{
    let ma = magnitude_of(a);
    let mb = magnitude_of(b);
    if ma > INFINITY || mb > INFINITY {
        false
    } else if a >= SIGN_BIT {
        if b >= SIGN_BIT {
            ma > mb
        } else {
            ma > 0 || mb > 0
        }
    } else {
        b < SIGN_BIT && ma < mb
    }
}

/// Whether `a` comes before `b`, or is `b`, in the total order.
pub fn total_le(a: u64, b: u64) -> (r: bool)
    ensures
        r == (total_place(a) <= total_place(b)),
{
    let ma = magnitude_of(a);
    let mb = magnitude_of(b);
    if a >= SIGN_BIT {
        b < SIGN_BIT || ma >= mb
    } else {
        b < SIGN_BIT && ma <= mb
    }
}

/// Two bit patterns at one place of the total order are the same.
pub proof fn lemma_total_place_injective(a: u64, b: u64)
    requires
        total_place(a) == total_place(b),
    ensures
        a == b,
{
}

} // verus!
