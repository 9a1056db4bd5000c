//! Double-precision numbers as their IEEE 754 bit patterns.
//!
//! Scores and penalties are computed by whoever embeds the library; here they
//! are compared and clamped. The top bit of a pattern is the sign; the rest
//! orders like the magnitude of the number it stands for.

use vstd::prelude::*;

verus! {

/// The pattern of positive infinity; larger magnitudes are not numbers.
pub const INFINITY: u64 = 0x7ff0_0000_0000_0000;

/// The pattern of the largest finite number.
pub const MAX_FINITE: u64 = 0x7fef_ffff_ffff_ffff;

/// The sign bit.
pub const SIGN: u64 = 0x8000_0000_0000_0000;

/// The magnitude bits of a pattern.
pub open spec fn magnitude(bits: u64) -> int {
    if bits >= SIGN {
        bits - SIGN
    } else {
        bits as int
    }
}

/// The pattern stands for no number.
pub open spec fn is_nan(bits: u64) -> bool {
    magnitude(bits) > INFINITY
}

/// The pattern stands for a finite number.
pub open spec fn is_finite(bits: u64) -> bool {
    magnitude(bits) < INFINITY
}

/// Numbers compare like these integers; both zeros are the integer zero.
pub open spec fn rank(bits: u64) -> int {
    if bits >= SIGN {
        -magnitude(bits)
    } else {
        magnitude(bits)
    }
}

/// The number `a` is at most the number `b`.
pub open spec fn is_at_most(a: u64, b: u64) -> bool {
    !is_nan(a) && !is_nan(b) && rank(a) <= rank(b)
}

/// Whether the number `a` is at most the number `b`; no pattern is at most, or
/// at least, one that stands for no number.
pub fn at_most(a: u64, b: u64) -> (result: bool)
    ensures
        result == is_at_most(a, b),
        a <= 0x7ff0_0000_0000_0000 && b <= 0x7ff0_0000_0000_0000 ==> result == (a <= b),
{
    let a_size: u64 = if a >= SIGN {
        a - SIGN
    } else {
        a
    };
    let b_size: u64 = if b >= SIGN {
        b - SIGN
    } else {
        b
    };
    if a_size > INFINITY || b_size > INFINITY {
        return false;
    }
    if a >= SIGN {
        b < SIGN || b_size <= a_size
    } else {
        a_size <= b_size && (b < SIGN || a_size == 0 && b_size == 0)
    }
}

/// A value as it enters a magnitude: what is not a number, or too large, counts
/// as the largest finite number, and what is negative as zero.
pub open spec fn sanitized(bits: u64) -> u64 {
    if is_nan(bits) || bits == INFINITY {
        MAX_FINITE
    } else if bits >= SIGN {
        0
    } else {
        bits
    }
}

/// A value as it enters a magnitude.
pub fn sanitize(bits: u64) -> (result: u64)
    ensures
        result == sanitized(bits),
        bits < 0x7ff0_0000_0000_0000 ==> result == bits,
        0x7ff0_0000_0000_0000 <= bits < 0x8000_0000_0000_0000 ==> result == 0x7fef_ffff_ffff_ffff,
        0x8000_0000_0000_0000 <= bits <= 0xfff0_0000_0000_0000 ==> result == 0,
        0xfff0_0000_0000_0000 < bits ==> result == 0x7fef_ffff_ffff_ffff,
        is_finite(result),
        rank(result) >= 0,
{
    if bits >= SIGN {
        if bits - SIGN > INFINITY {
            MAX_FINITE
        } else {
            0
        }
    } else if bits >= INFINITY {
        MAX_FINITE
    } else {
        bits
    }
}

/// Patterns without the sign bit, up to that of infinity, are compared like
/// integers, and those with it the other way round. What has the sign bit is at
/// most what has not, and both zeros are equal. What is no number compares with
/// nothing.
pub proof fn law_comparison(a: u64, b: u64)
    ensures
        a <= 0x7ff0_0000_0000_0000 && b <= 0x7ff0_0000_0000_0000 ==> (is_at_most(a, b) <==> a <= b),
        0x8000_0000_0000_0000 <= a <= 0xfff0_0000_0000_0000 && 0x8000_0000_0000_0000 <= b
            <= 0xfff0_0000_0000_0000 ==> (is_at_most(a, b) <==> b <= a),
        0x8000_0000_0000_0000 <= a <= 0xfff0_0000_0000_0000 && b <= 0x7ff0_0000_0000_0000
            ==> is_at_most(a, b),
        a <= 0x7ff0_0000_0000_0000 && 0x8000_0000_0000_0000 <= b <= 0xfff0_0000_0000_0000 ==> (
        is_at_most(a, b) <==> a == 0 && b == 0x8000_0000_0000_0000),
        0x7ff0_0000_0000_0000 < a < 0x8000_0000_0000_0000 || a > 0xfff0_0000_0000_0000
            ==> !is_at_most(a, b) && !is_at_most(b, a),
{
}

/// Numbers without the sign bit are left as they are, those with it become zero,
/// and everything else becomes the largest finite number. What was settled once
/// stays so, and the order of numbers is kept.
pub proof fn law_sanitized(a: u64, b: u64)
    ensures
        a < 0x7ff0_0000_0000_0000 ==> sanitized(a) == a,
        0x8000_0000_0000_0000 <= a <= 0xfff0_0000_0000_0000 ==> sanitized(a) == 0,
        sanitized(a) <= 0x7fef_ffff_ffff_ffff,
        0x7ff0_0000_0000_0000 <= a < 0x8000_0000_0000_0000 || a > 0xfff0_0000_0000_0000
            ==> sanitized(a) == 0x7fef_ffff_ffff_ffff,
        sanitized(sanitized(a)) == sanitized(a),
        is_at_most(a, b) ==> is_at_most(sanitized(a), sanitized(b)),
{
}

} // verus!
