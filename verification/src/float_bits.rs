//! Numeric comparison of IEEE-754 double bit patterns: NaN equals nothing,
//! not even itself, and the two zeros are equal. Everything else is equal
//! exactly when the bit patterns are.

use vstd::prelude::*;

verus! {

/// The sign bit of a double.
pub const SIGN_BIT: u64 = 0x8000_0000_0000_0000u64;

/// The bit pattern of positive infinity: the largest magnitude that is not
/// a NaN.
pub const INFINITY_BITS: u64 = 0x7ff0_0000_0000_0000u64;

/// The pattern with its sign bit cleared.
pub open spec fn magnitude(b: u64) -> u64 {
    (b % SIGN_BIT) as u64
}

/// Whether the pattern is a NaN (all exponent bits set, nonzero fraction).
pub open spec fn is_nan(b: u64) -> bool {
    magnitude(b) > INFINITY_BITS
}

/// Whether the pattern is +0.0 or -0.0.
pub open spec fn is_zero(b: u64) -> bool {
    magnitude(b) == 0
}

/// IEEE-754 equality of two doubles given by their bit patterns.
pub open spec fn num_eq(a: u64, b: u64) -> bool {
    &&& !is_nan(a)
    &&& !is_nan(b)
    &&& (a == b || (is_zero(a) && is_zero(b)))
}

/// IEEE-754 equality of two doubles given by their bit patterns.
pub fn bits_num_eq(a: u64, b: u64) -> (r: bool)
    ensures
        r == num_eq(a, b),
{
    let ma = a % SIGN_BIT;
    let mb = b % SIGN_BIT;
    if ma > INFINITY_BITS || mb > INFINITY_BITS {
        false
    } else {
        a == b || (ma == 0 && mb == 0)
    }
}

/// A number equals itself unless it is a NaN.
pub proof fn law_num_eq_reflexive(a: u64)
    ensures
        num_eq(a, a) == !is_nan(a),
{
}

/// Numeric equality is symmetric and transitive; the two zeros are equal;
/// away from NaNs and zeros it is equality of bit patterns.
pub proof fn law_num_eq_properties(a: u64, b: u64, c: u64)
    ensures
        num_eq(a, b) == num_eq(b, a),
        num_eq(a, b) && num_eq(b, c) ==> num_eq(a, c),
        is_zero(a) && is_zero(b) ==> num_eq(a, b),
        !is_nan(a) && !is_nan(b) && !is_zero(a) ==> (num_eq(a, b) == (a == b)),
        is_nan(a) ==> !num_eq(a, b),
{
}

} // verus!
