//! Exact arithmetic on magnitudes, each result rounded once.

use crate::double::model::{magnitude_units, rounded, scale, significand};
use crate::double::model::{EXPONENT_UNIT, INFINITY_BITS};
use crate::double::rounding::{brackets, down, lemma_shift, round_scaled, up};
use vstd::arithmetic::div_mod::*;
use vstd::arithmetic::mul::*;
use vstd::arithmetic::power2::*;
use vstd::prelude::*;

verus! {

/// Significand and scale of a magnitude.
pub proof fn lemma_parts(mag: nat)
    requires
        mag <= INFINITY_BITS,
    ensures
        significand(mag) < pow2(53),
        scale(mag) > 0 ==> significand(mag) >= pow2(52),
        scale(mag) <= 2046,
        mag < INFINITY_BITS ==> scale(mag) <= 2045,
        significand(mag) == 0 <==> mag == 0,
        magnitude_units(mag) == 0 <==> mag == 0,
{
    lemma2_to64_rest();
    lemma_pow2_pos(scale(mag));
    lemma_fundamental_div_mod(mag as int, EXPONENT_UNIT as int);
    let m = significand(mag);
    let w = pow2(scale(mag));
    assert(m * w == 0 <==> m == 0) by (nonlinear_arith)
        requires
            w > 0,
    ;
}

/// A larger magnitude has a larger value.
pub proof fn lemma_units_increase(low: nat, high: nat)
    requires
        low < high <= INFINITY_BITS,
    ensures
        magnitude_units(low) < magnitude_units(high),
{
    lemma_parts(low);
    lemma_parts(high);
    lemma2_to64_rest();
    let (m1, k1) = (significand(low), scale(low));
    let (m2, k2) = (significand(high), scale(high));
    assert(k1 <= k2) by {
        if low >= EXPONENT_UNIT {
            lemma_div_is_ordered(low as int, high as int, EXPONENT_UNIT as int);
        }
    }
    lemma_pow2_pos(k1);
    if k1 == k2 {
        assert(m1 * pow2(k1) < m2 * pow2(k1)) by (nonlinear_arith)
            requires
                m1 < m2,
                pow2(k1) > 0,
        ;
    } else {
        let gap = (k2 - k1 - 1) as nat;
        lemma_pow2_adds(53, k1);
        lemma_pow2_adds(53 + k1, gap);
        lemma_pow2_adds(52, k2);
        lemma_pow2_pos(gap);
        lemma_pow2_pos(53 + k1);
        assert(53 + k1 + gap == 52 + k2);
        assert(m1 * pow2(k1) < pow2(53) * pow2(k1)) by (nonlinear_arith)
            requires
                m1 < pow2(53),
                pow2(k1) > 0,
        ;
        assert(pow2(53 + k1) <= pow2(53 + k1) * pow2(gap)) by (nonlinear_arith)
            requires
                pow2(gap) > 0,
        ;
        assert(pow2(52) * pow2(k2) <= m2 * pow2(k2)) by (nonlinear_arith)
            requires
                pow2(52) <= m2,
        ;
    }
}

/// Neighbouring magnitudes differ by one step of the lower one's scale.
pub proof fn lemma_next_units(low: nat)
    requires
        low < INFINITY_BITS,
    ensures
        magnitude_units(low + 1) == (significand(low) + 1) * pow2(scale(low)),
{
    let (m, k) = (significand(low), scale(low));
    lemma2_to64_rest();
    lemma_parts(low);
    lemma_fundamental_div_mod(low as int, EXPONENT_UNIT as int);
    if m + 1 < pow2(53) && (k > 0 || m + 1 < pow2(52)) {
        assert(scale(low + 1) == k) by {
            if k > 0 {
                lemma_fundamental_div_mod_converse(
                    (low + 1) as int,
                    EXPONENT_UNIT as int,
                    (k + 1) as int,
                    m + 1 - EXPONENT_UNIT,
                );
            }
        }
    } else if k == 0 && m + 1 < pow2(53) {
        lemma_fundamental_div_mod_converse(
            (low + 1) as int,
            EXPONENT_UNIT as int,
            1,
            low + 1 - EXPONENT_UNIT,
        );
        assert(scale(low + 1) == 0);
    } else {
        assert(low + 1 == (k + 2) * EXPONENT_UNIT);
        lemma_div_by_multiple((k + 2) as int, EXPONENT_UNIT as int);
        assert(scale(low + 1) == k + 1);
        assert(significand(low + 1) == pow2(52));
        lemma_pow2_unfold(k + 1);
        assert(pow2(52) * (2 * pow2(k)) == pow2(53) * pow2(k)) by (nonlinear_arith)
            requires
                pow2(53) == 2 * pow2(52),
        ;
    }
}

/// Splits a magnitude into its significand and its scale.
pub(crate) fn parts(mag: u64) -> (r: (u64, u64))
    requires
        mag < INFINITY_BITS,
    ensures
        r.0 == significand(mag as nat),
        r.1 == scale(mag as nat),
        r.0 < pow2(53),
        r.1 > 0 ==> r.0 >= pow2(52),
        r.1 <= 2045,
        magnitude_units(mag as nat) == r.0 * pow2(r.1 as nat),
        r.0 == 0 <==> mag == 0,
{
    proof {
        lemma_parts(mag as nat);
        lemma_fundamental_div_mod(mag as int, EXPONENT_UNIT as int);
    }
    if mag < EXPONENT_UNIT {
        (mag, 0)
    } else {
        let k: u64 = mag / EXPONENT_UNIT - 1;
        (mag - k * EXPONENT_UNIT, k)
    }
}

/// The magnitude of a product of finite magnitudes.
pub(crate) fn multiply(a: u64, b: u64) -> (mag: u64)
    requires
        a < INFINITY_BITS,
        b < INFINITY_BITS,
    ensures
        mag == rounded(magnitude_units(a as nat) * magnitude_units(b as nat), pow2(1074)),
        mag <= INFINITY_BITS,
{
    let (am, ae) = parts(a);
    let (bm, be) = parts(b);
    let ghost n: nat = magnitude_units(a as nat) * magnitude_units(b as nat);
    let ghost d: nat = pow2(1074);
    proof {
        lemma2_to64_rest();
        lemma_pow2_pos(1074);
        lemma_pow2_adds(53, 53);
        lemma_pow2_strictly_increases(106, 127);
        lemma_pow2_adds(64, 63);
        assert(am * bm < pow2(53) * pow2(53)) by (nonlinear_arith)
            requires
                am < pow2(53),
                bm < pow2(53),
        ;
        assert(0x20000000000000 * 0x20000000000000 == 0x400000000000000000000000000)
            by (nonlinear_arith);
    }
    let p: u128 = (am as u128) * (bm as u128);
    let s: i64 = (ae as i64) + (be as i64) - 1074;
    proof {
        lemma_shift(1074, s as int, (ae + be) as nat);
        lemma_pow2_adds(ae as nat, be as nat);
        assert(n * down(s as int) == p as nat * (d * up(s as int))) by (nonlinear_arith)
            requires
                n == (am * pow2(ae as nat)) * (bm * pow2(be as nat)),
                p == am * bm,
                pow2((ae + be) as nat) == pow2(ae as nat) * pow2(be as nat),
                d * up(s as int) == pow2((ae + be) as nat) * down(s as int),
        ;
    }
    round_scaled(p, s, false, Ghost(n), Ghost(d))
}

/// The magnitude of a quotient of finite magnitudes.
pub(crate) fn divide(a: u64, b: u64) -> (mag: u64)
    requires
        a < INFINITY_BITS,
        0 < b < INFINITY_BITS,
    ensures
        mag == rounded(magnitude_units(a as nat) * pow2(1074), magnitude_units(b as nat)),
        mag <= INFINITY_BITS,
{
    let (am, ae) = parts(a);
    let (bm, be) = parts(b);
    let ghost n: nat = magnitude_units(a as nat) * pow2(1074);
    let ghost d: nat = magnitude_units(b as nat);
    proof {
        lemma_parts(b as nat);
        lemma2_to64();
        lemma2_to64_rest();
    }
    // Bring the dividend to a full significand, so that the quotient has bits to spare.
    let mut top: u64 = am;
    let mut z: u64 = 0;
    while top < EXPONENT_UNIT && z < 52
        invariant
            z <= 52,
            top == am * pow2(z as nat),
            am < pow2(53),
            top < pow2(53),
            am > 0 ==> top >= pow2(z as nat),
            pow2(52) == EXPONENT_UNIT,
            pow2(53) == 2 * EXPONENT_UNIT,
        decreases 52 - z,
    {
        proof {
            lemma_pow2_unfold((z + 1) as nat);
            assert(am * (2 * pow2(z as nat)) == 2 * (am * pow2(z as nat))) by (nonlinear_arith);
        }
        top = top * 2;
        z = z + 1;
    }
    let dividend: u128 = (top as u128) * 0x1_0000_0000_0000_0000;
    let q: u128 = dividend / (bm as u128);
    let r: u128 = dividend % (bm as u128);
    let s: i64 = (ae as i64) - (be as i64) + 1010 - (z as i64);
    proof {
        lemma_fundamental_div_mod(dividend as int, bm as int);
        lemma_pow2_adds(64, 63);
        lemma_pow2_strictly_increases(117, 127);
        lemma_pow2_adds(53, 64);
        assert(q <= dividend) by (nonlinear_arith)
            requires
                dividend == bm * q + r,
                bm >= 1,
                r >= 0,
        ;
        if am > 0 {
            assert(q >= pow2(55)) by (nonlinear_arith)
                requires
                    dividend >= 0x10_0000_0000_0000 * 0x1_0000_0000_0000_0000,
                    dividend == bm * q + r,
                    r < bm,
                    bm < 0x20_0000_0000_0000,
                    pow2(55) == 0x80_0000_0000_0000,
            ;
        }
        if am == 0 {
            lemma_mul_basics(pow2(z as nat) as int);
            lemma_mod_self_0(bm as int);
            assert(dividend == 0);
            lemma_small_mod(0, bm as nat);
        }
        lemma_quotient_brackets(
            am as nat,
            ae as nat,
            bm as nat,
            be as nat,
            z as nat,
            dividend as nat,
            q as nat,
            r as nat,
            s as int,
        );
    }
    round_scaled(q, s, r != 0, Ghost(n), Ghost(d))
}

proof fn lemma_quotient_brackets(
    am: nat,
    ae: nat,
    bm: nat,
    be: nat,
    z: nat,
    dividend: nat,
    q: nat,
    r: nat,
    s: int,
)
    requires
        bm > 0,
        dividend == (am * pow2(z)) * pow2(64),
        dividend == bm * q + r,
        r < bm,
        s == ae - be + 1010 - z,
    ensures
        brackets((am * pow2(ae)) * pow2(1074), bm * pow2(be), q, s, r != 0),
{
    let n = (am * pow2(ae)) * pow2(1074);
    let d = bm * pow2(be);
    // `n * down(s)` is the dividend, and `d * up(s)` the divisor, at a common scale.
    let common = pow2(be) * up(s);
    lemma_shift(be + z + 64, s, ae + 1074);
    lemma_pow2_adds(be, z + 64);
    lemma_pow2_adds(z, 64);
    lemma_pow2_adds(ae, 1074);
    lemma_pow2_pos(be);
    assert(n * down(s) == am * (pow2(ae + 1074) * down(s))) by (nonlinear_arith)
        requires
            n == (am * pow2(ae)) * pow2(1074),
            pow2(ae + 1074) == pow2(ae) * pow2(1074),
    ;
    assert(pow2(be + z + 64) * up(s) == (pow2(z) * pow2(64)) * common) by (nonlinear_arith)
        requires
            pow2(be + z + 64) == pow2(be) * (pow2(z) * pow2(64)),
            common == pow2(be) * up(s),
    ;
    assert(n * down(s) == dividend * common) by (nonlinear_arith)
        requires
            n * down(s) == am * ((pow2(z) * pow2(64)) * common),
            dividend == (am * pow2(z)) * pow2(64),
    ;
    assert(d * up(s) == bm * common) by (nonlinear_arith)
        requires
            d == bm * pow2(be),
            common == pow2(be) * up(s),
    ;
    assert(common > 0) by (nonlinear_arith)
        requires
            pow2(be) > 0,
            up(s) > 0,
            common == pow2(be) * up(s),
    ;
    assert(q * (bm * common) == (bm * q) * common) by (nonlinear_arith);
    assert((q + 1) * (bm * common) == (bm * q + bm) * common) by (nonlinear_arith);
    lemma_mul_strict_inequality(dividend as int, (bm * q + bm) as int, common as int);
    if r != 0 {
        lemma_mul_strict_inequality((bm * q) as int, dividend as int, common as int);
    }
}

/// The magnitude of a sum of finite magnitudes.
pub(crate) fn add_magnitudes(a: u64, b: u64) -> (mag: u64)
    requires
        b <= a < INFINITY_BITS,
    ensures
        mag == rounded(magnitude_units(a as nat) + magnitude_units(b as nat), 1),
        mag <= INFINITY_BITS,
{
    let (am, ae) = parts(a);
    let (bm, be) = parts(b);
    let ghost n: nat = magnitude_units(a as nat) + magnitude_units(b as nat);
    proof {
        lemma_scale_ordered(b as nat, a as nat);
        lemma2_to64();
        lemma2_to64_rest();
    }
    let gap: u64 = ae - be;
    if gap <= 70 {
        let lifted: u128 = lift(am, gap);
        proof {
            lemma_aligned(am as nat, ae as nat, gap as nat, be as nat);
            assert((lifted + bm) * pow2(be as nat) == lifted * pow2(be as nat) + bm * pow2(
                be as nat,
            )) by (nonlinear_arith);
            lemma_integer_brackets(n, (lifted + bm) as nat, be as nat);
            lemma_pow2_strictly_increases(124, 127);
            lemma_pow2_unfold(124);
            lemma_pow2_strictly_increases(53, 123);
        }
        round_scaled(lifted + (bm as u128), be as i64, false, Ghost(n), Ghost(1))
    } else {
        let s: i64 = (ae as i64) - 10;
        let p: u128 = (am as u128) * 1024;
        proof {
            lemma_far_below(am as nat, ae as nat, bm as nat, be as nat);
            lemma_pow2_strictly_increases(63, 127);
            if bm > 0 {
                lemma_between_brackets(n, p as nat, s as nat);
            } else {
                lemma_integer_brackets(n, p as nat, s as nat);
            }
        }
        round_scaled(p, s, bm > 0, Ghost(n), Ghost(1))
    }
}

/// The magnitude of a difference of finite magnitudes.
pub(crate) fn subtract_magnitudes(a: u64, b: u64) -> (mag: u64)
    requires
        b <= a < INFINITY_BITS,
    ensures
        mag == rounded((magnitude_units(a as nat) - magnitude_units(b as nat)) as nat, 1),
        mag <= INFINITY_BITS,
{
    let (am, ae) = parts(a);
    let (bm, be) = parts(b);
    proof {
        lemma_scale_ordered(b as nat, a as nat);
        if b < a {
            lemma_units_increase(b as nat, a as nat);
        }
        lemma2_to64();
        lemma2_to64_rest();
    }
    let ghost n: nat = (magnitude_units(a as nat) - magnitude_units(b as nat)) as nat;
    let gap: u64 = ae - be;
    if gap <= 70 {
        let lifted: u128 = lift(am, gap);
        proof {
            lemma_aligned(am as nat, ae as nat, gap as nat, be as nat);
            assert((lifted - bm) * pow2(be as nat) == lifted * pow2(be as nat) - bm * pow2(
                be as nat,
            )) by (nonlinear_arith);
            lemma_pow2_pos(be as nat);
            assert(lifted >= bm) by (nonlinear_arith)
                requires
                    (lifted - bm) * pow2(be as nat) >= 0,
                    pow2(be as nat) > 0,
            ;
            lemma_integer_brackets(n, (lifted - bm) as nat, be as nat);
            lemma_pow2_strictly_increases(123, 127);
        }
        round_scaled(lifted - (bm as u128), be as i64, false, Ghost(n), Ghost(1))
    } else {
        let s: i64 = (ae as i64) - 10;
        let p: u128 = (am as u128) * 1024;
        proof {
            lemma_far_below(am as nat, ae as nat, bm as nat, be as nat);
            lemma_pow2_strictly_increases(63, 127);
        }
        if bm > 0 {
            proof {
                assert((p - 1) * pow2(s as nat) == p * pow2(s as nat) - pow2(s as nat))
                    by (nonlinear_arith);
                lemma_between_brackets(n, (p - 1) as nat, s as nat);
            }
            round_scaled(p - 1, s, true, Ghost(n), Ghost(1))
        } else {
            proof {
                lemma_integer_brackets(n, p as nat, s as nat);
            }
            round_scaled(p, s, false, Ghost(n), Ghost(1))
        }
    }
}

proof fn lemma_scale_ordered(low: nat, high: nat)
    requires
        low <= high,
    ensures
        scale(low) <= scale(high),
{
    if low >= EXPONENT_UNIT {
        lemma_div_is_ordered(low as int, high as int, EXPONENT_UNIT as int);
    }
}

/// Shifts a significand left.
fn lift(m: u64, gap: u64) -> (r: u128)
    requires
        m < pow2(53),
        gap <= 70,
    ensures
        r == m * pow2(gap as nat),
        r < pow2(123),
        pow2(123) == 0x8000000000000000000000000000000,
{
    let mut r: u128 = m as u128;
    let mut i: u64 = 0;
    proof {
        lemma2_to64();
        lemma2_to64_rest();
        lemma_pow2_adds(64, 59);
        lemma_mul_basics(m as int);
        assert(0x10000000000000000 * 0x800000000000000 == 0x8000000000000000000000000000000)
            by (nonlinear_arith);
    }
    while i < gap
        invariant
            i <= gap <= 70,
            r == m * pow2(i as nat),
            r < pow2((53 + i) as nat),
            pow2(123) == 0x8000000000000000000000000000000,
        decreases gap - i,
    {
        proof {
            lemma_pow2_unfold((i + 1) as nat);
            lemma_pow2_unfold((54 + i) as nat);
            lemma_pow2_strictly_increases((53 + i) as nat, 123);
            assert(m * (2 * pow2(i as nat)) == 2 * (m * pow2(i as nat))) by (nonlinear_arith);
        }
        r = r * 2;
        i = i + 1;
    }
    proof {
        if gap < 70 {
            lemma_pow2_strictly_increases((53 + gap) as nat, 123);
        }
    }
    r
}

proof fn lemma_aligned(m: nat, high: nat, gap: nat, low: nat)
    requires
        high == low + gap,
    ensures
        (m * pow2(gap)) * pow2(low) == m * pow2(high),
{
    lemma_pow2_adds(gap, low);
    lemma_mul_is_associative(m as int, pow2(gap) as int, pow2(low) as int);
}

/// With its scale more than 70 below, a magnitude is less than `2^-10` of the larger scale.
proof fn lemma_far_below(am: nat, ae: nat, bm: nat, be: nat)
    requires
        ae > be + 70,
        bm < pow2(53),
    ensures
        (am * 1024) * pow2((ae - 10) as nat) == am * pow2(ae),
        bm * pow2(be) < pow2((ae - 10) as nat),
        bm > 0 ==> bm * pow2(be) > 0,
        bm == 0 ==> bm * pow2(be) == 0,
{
    lemma2_to64();
    lemma_aligned(am, ae, 10, (ae - 10) as nat);
    lemma_pow2_pos(be);
    lemma_pow2_adds(53, be);
    lemma_pow2_strictly_increases(53 + be, (ae - 10) as nat);
    assert(bm * pow2(be) < pow2(53) * pow2(be)) by (nonlinear_arith)
        requires
            bm < pow2(53),
            pow2(be) > 0,
    ;
    assert(bm > 0 ==> bm * pow2(be) > 0) by (nonlinear_arith)
        requires
            pow2(be) > 0,
    ;
}

proof fn lemma_integer_brackets(n: nat, p: nat, s: nat)
    requires
        n == p * pow2(s),
    ensures
        brackets(n, 1, p, s as int, false),
{
    lemma2_to64();
    assert(down(s as int) == 1);
    lemma_mul_basics(n as int);
    lemma_mul_basics(pow2(s) as int);
}

proof fn lemma_between_brackets(n: nat, p: nat, s: nat)
    requires
        p * pow2(s) < n < p * pow2(s) + pow2(s),
    ensures
        brackets(n, 1, p, s as int, true),
{
    lemma2_to64();
    assert(down(s as int) == 1);
    lemma_mul_basics(n as int);
    lemma_mul_basics(pow2(s) as int);
    assert((p + 1) * pow2(s) == p * pow2(s) + pow2(s)) by (nonlinear_arith);
}

} // verus!
