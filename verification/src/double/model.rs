//! What a bit pattern means, and what a correctly rounded result is.

use vstd::arithmetic::power2::*;
use vstd::prelude::*;

verus! {

/// Bit pattern of positive infinity; larger magnitudes are not numbers.
pub const INFINITY_BITS: u64 = 0x7ff0_0000_0000_0000;

/// Weight of the sign bit.
pub const SIGN_BIT: u64 = 0x8000_0000_0000_0000;

/// Weight of the lowest exponent bit, `2^52`.
pub const EXPONENT_UNIT: u64 = 0x10_0000_0000_0000;

/// The power of two by which the significand of a magnitude is scaled.
pub open spec fn scale(mag: nat) -> nat {
    if mag < EXPONENT_UNIT {
        0
    } else {
        (mag / EXPONENT_UNIT as nat - 1) as nat
    }
}

/// The significand of a magnitude: the fraction bits, with the implicit leading bit.
pub open spec fn significand(mag: nat) -> nat {
    (mag - scale(mag) * EXPONENT_UNIT) as nat
}

/// The value of a magnitude, counted in units of `2^-1074`.
pub open spec fn magnitude_units(mag: nat) -> nat {
    significand(mag) * pow2(scale(mag))
}

/// The integer nearest to `n / d`, the even one of two equally near.
pub open spec fn half_even(n: nat, d: nat) -> nat {
    let q = n / d;
    let r = n % d;
    if 2 * r < d {
        q
    } else if 2 * r > d {
        q + 1
    } else {
        q + q % 2
    }
}

/// The least `k` with `n / d < 2^(53 + k)`: the scale at which `n / d` has a 53-bit significand.
pub open spec fn binade(n: nat, d: nat) -> nat
    decreases
            (if n >= d * pow2(53) {
                n - d * pow2(53) + 1
            } else {
                0
            }),
{
    if d == 0 || n < d * pow2(53) {
        0
    } else {
        proof {
            lemma_pow2_pos(53);
            assert((2 * d) * pow2(53) == 2 * (d * pow2(53))) by (nonlinear_arith);
            assert(d * pow2(53) > 0) by (nonlinear_arith)
                requires
                    d > 0,
                    pow2(53) > 0,
            ;
        }
        1 + binade(n, 2 * d)
    }
}

/// The magnitude whose value is nearest to `n / d` units: the significand is `n / d` rounded at
/// its binade, and what lies past the largest finite number is infinity.
pub open spec fn rounded(n: nat, d: nat) -> nat {
    let k = binade(n, d);
    let mag = k * EXPONENT_UNIT + half_even(n, d * pow2(k));
    if mag < INFINITY_BITS {
        mag as nat
    } else {
        INFINITY_BITS as nat
    }
}

} // verus!
