//! What rounding guarantees.

use crate::double::magnitude::lemma_parts;
use crate::double::model::{binade, half_even, magnitude_units, rounded, scale, significand};
use crate::double::model::{EXPONENT_UNIT, INFINITY_BITS};
use crate::double::rounding::{is_nearest, lemma_binade, lemma_half_even_is_nearest};
use crate::double::rounding::{lemma_half_even_scaled, lemma_rounded_significand};
use crate::double::abs;
use vstd::arithmetic::div_mod::*;
use vstd::arithmetic::mul::*;
use vstd::arithmetic::power2::*;
use vstd::prelude::*;

verus! {

/// What a binade is: the quotient lies in it, and unless it is the lowest one, not below it.
pub proof fn lemma_binade_bounds(n: nat, d: nat)
    requires
        d > 0,
    ensures
        n < d * pow2(53 + binade(n, d)),
        binade(n, d) > 0 ==> n >= d * pow2((52 + binade(n, d)) as nat),
    decreases n, binade(n, d),
{
    lemma_pow2_pos(53);
    if n >= d * pow2(53) {
        let k = binade(n, d);
        let below = (k - 1) as nat;
        lemma_binade_bounds(n, 2 * d);
        assert(binade(n, 2 * d) == below);
        lemma_pow2_unfold(53 + k);
        assert((2 * d) * pow2(53 + below) == d * (2 * pow2(53 + below))) by (nonlinear_arith);
        if below > 0 {
            lemma_pow2_unfold((52 + k) as nat);
            assert((2 * d) * pow2((52 + below) as nat) == d * (2 * pow2((52 + below) as nat)))
                by (nonlinear_arith);
        }
    }
}

/// The value of a magnitude that is put together from a scale and a significand.
pub proof fn lemma_packed_units(k: nat, m: nat)
    requires
        m <= pow2(53),
        k > 0 ==> m >= pow2(52),
    ensures
        magnitude_units(k * EXPONENT_UNIT as nat + m) == m * pow2(k),
{
    lemma2_to64_rest();
    let mag = k * EXPONENT_UNIT as nat + m;
    if m == pow2(53) {
        assert(mag == (k + 2) * EXPONENT_UNIT);
        lemma_div_by_multiple((k + 2) as int, EXPONENT_UNIT as int);
        assert(scale(mag) == k + 1);
        lemma_pow2_unfold(k + 1);
        assert(pow2(52) * (2 * pow2(k)) == pow2(53) * pow2(k)) by (nonlinear_arith)
            requires
                pow2(53) == 2 * pow2(52),
        ;
    } else if m >= pow2(52) {
        lemma_fundamental_div_mod_converse(
            mag as int,
            EXPONENT_UNIT as int,
            (k + 1) as int,
            m - EXPONENT_UNIT,
        );
        assert(scale(mag) == k);
    } else {
        assert(scale(mag) == 0);
    }
}

/// A nearest multiple is at least as near as any other one.
proof fn lemma_nearest_multiple(n: nat, e: nat, m: nat, j: nat)
    requires
        is_nearest(n, e, m),
    ensures
        abs(n - m * e) <= abs(n - j * e),
        2 * abs(n - m * e) <= e,
{
    assert((2 * m + 1) * e == 2 * (m * e) + e && (2 * m - 1) * e == 2 * (m * e) - e)
        by (nonlinear_arith);
    if j > m {
        assert(j * e >= m * e + e) by (nonlinear_arith)
            requires
                j >= m + 1,
        ;
    } else if j < m {
        assert(j * e + e <= m * e) by (nonlinear_arith)
            requires
                j + 1 <= m,
        ;
    }
}

/// No finite number is nearer to a quotient than the finite number that it rounds to.
pub proof fn law_rounding_is_nearest(n: nat, d: nat, mag: nat)
    requires
        d > 0,
        rounded(n, d) < INFINITY_BITS,
        mag < INFINITY_BITS,
    ensures
        abs(n - magnitude_units(rounded(n, d)) * d) <= abs(n - magnitude_units(mag) * d),
{
    let k = binade(n, d);
    let e = d * pow2(k);
    let m = half_even(n, e);
    lemma_rounded_value(n, d);
    lemma_binade_bounds(n, d);
    lemma_half_even_is_nearest(n, e);
    lemma_parts(mag);
    let (sig, low) = (significand(mag), scale(mag));
    if low >= k {
        let j = sig * pow2((low - k) as nat);
        lemma_pow2_adds((low - k) as nat, k);
        assert((sig * pow2(low)) * d == j * e) by (nonlinear_arith)
            requires
                pow2(low) == pow2((low - k) as nat) * pow2(k),
                j == sig * pow2((low - k) as nat),
                e == d * pow2(k),
        ;
        lemma_nearest_multiple(n, e, m, j);
    } else {
        let j = pow2(52);
        let gap = (k - 1 - low) as nat;
        lemma_nearest_multiple(n, e, m, j);
        lemma_pow2_adds(52, k);
        lemma_pow2_adds(53, low);
        lemma_pow2_adds(53 + low, gap);
        lemma_pow2_pos(gap);
        lemma_pow2_pos(low);
        assert(53 + low + gap == 52 + k);
        assert(j * e == d * pow2(52 + k)) by (nonlinear_arith)
            requires
                j == pow2(52),
                e == d * pow2(k),
                pow2(52 + k) == pow2(52) * pow2(k),
        ;
        assert(sig * pow2(low) <= pow2(52 + k)) by (nonlinear_arith)
            requires
                sig < pow2(53),
                pow2(53 + low) == pow2(53) * pow2(low),
                pow2(52 + k) == pow2(53 + low) * pow2(gap),
                pow2(gap) > 0,
                pow2(low) > 0,
        ;
        assert((sig * pow2(low)) * d <= j * e) by (nonlinear_arith)
            requires
                sig * pow2(low) <= pow2(52 + k),
                j * e == d * pow2(52 + k),
        ;
    }
}

/// The value that a quotient rounds to, as a multiple of its binade's step.
pub proof fn lemma_rounded_value(n: nat, d: nat)
    requires
        d > 0,
        rounded(n, d) < INFINITY_BITS,
    ensures
        d * pow2(binade(n, d)) > 0,
        half_even(n, d * pow2(binade(n, d))) <= pow2(53),
        binade(n, d) > 0 ==> half_even(n, d * pow2(binade(n, d))) >= pow2(52),
        magnitude_units(rounded(n, d)) == half_even(n, d * pow2(binade(n, d))) * pow2(
            binade(n, d),
        ),
        magnitude_units(rounded(n, d)) * d == half_even(n, d * pow2(binade(n, d))) * (d * pow2(
            binade(n, d),
        )),
{
    let k = binade(n, d);
    let e = d * pow2(k);
    let m = half_even(n, e);
    lemma_binade_bounds(n, d);
    lemma_rounded_significand(n, d, k);
    lemma_packed_units(k, m);
    lemma_pow2_pos(k);
    assert(e > 0) by (nonlinear_arith)
        requires
            d > 0,
            pow2(k) > 0,
            e == d * pow2(k),
    ;
    assert((m * pow2(k)) * d == m * (d * pow2(k))) by (nonlinear_arith);
}

/// A quotient that is a finite number rounds to that number.
pub proof fn law_rounding_keeps_numbers(n: nat, d: nat, mag: nat)
    requires
        d > 0,
        mag < INFINITY_BITS,
        n == magnitude_units(mag) * d,
    ensures
        rounded(n, d) == mag,
{
    let (m, k) = (significand(mag), scale(mag));
    let e = d * pow2(k);
    lemma_parts(mag);
    lemma_pow2_pos(k);
    lemma_pow2_adds(53, k);
    lemma_pow2_adds(52, k);
    assert(n < d * pow2(53 + k)) by (nonlinear_arith)
        requires
            n == (m * pow2(k)) * d,
            m < pow2(53),
            d > 0,
            pow2(k) > 0,
            pow2(53 + k) == pow2(53) * pow2(k),
    ;
    if k > 0 {
        assert(n >= d * pow2((52 + k) as nat)) by (nonlinear_arith)
            requires
                n == (m * pow2(k)) * d,
                m >= pow2(52),
                pow2((52 + k) as nat) == pow2(52) * pow2(k),
        ;
    }
    lemma_binade(n, d, k);
    assert(e > 0 && n == m * e) by (nonlinear_arith)
        requires
            d > 0,
            pow2(k) > 0,
            e == d * pow2(k),
            n == (m * pow2(k)) * d,
    ;
    lemma_div_by_multiple(m as int, e as int);
    lemma_mod_multiples_basic(m as int, e as int);
}

/// The magnitude of a natural number: its significand is the number, shifted.
pub proof fn lemma_natural_value(mag: nat, value: nat, shift: nat)
    requires
        scale(mag) + shift == 1074,
        significand(mag) == value * pow2(shift),
    ensures
        magnitude_units(mag) == value * pow2(1074),
{
    lemma_pow2_adds(shift, scale(mag));
    lemma_mul_is_associative(value as int, pow2(shift) as int, pow2(scale(mag)) as int);
}

/// The magnitude nearest to a fraction: its significand is the shifted fraction, rounded.
pub proof fn lemma_fraction_value(a: nat, b: nat, shift: nat, k: nat, m: nat)
    requires
        b > 0,
        0 < k <= 2045,
        k + shift == 1074,
        b * pow2(52) <= a * pow2(shift) < b * pow2(53),
        half_even(a * pow2(shift), b) == m,
    ensures
        rounded(a * pow2(1074), b) == k * EXPONENT_UNIT + m,
{
    let n = a * pow2(1074);
    let top = a * pow2(shift);
    let w = pow2(k);
    lemma_pow2_pos(k);
    lemma_pow2_adds(shift, k);
    lemma_pow2_adds(53, k);
    lemma_pow2_adds(52, k);
    lemma_mul_is_associative(a as int, pow2(shift) as int, w as int);
    assert(n == top * w);
    assert(b * pow2(53 + k) == (b * pow2(53)) * w && b * pow2((52 + k) as nat) == (b * pow2(52))
        * w) by (nonlinear_arith)
        requires
            pow2(53 + k) == pow2(53) * w,
            pow2((52 + k) as nat) == pow2(52) * w,
    ;
    lemma_mul_strict_inequality(top as int, (b * pow2(53)) as int, w as int);
    lemma_mul_inequality((b * pow2(52)) as int, top as int, w as int);
    lemma_binade(n, b, k);
    lemma_half_even_scaled(top, b, w);
    lemma_rounded_significand(n, b, k);
    lemma2_to64_rest();
}

/// A quotient that is not above a finite number does not round above it.
pub proof fn law_rounding_stays_below(n: nat, d: nat, mag: nat)
    requires
        d > 0,
        mag < INFINITY_BITS,
        n <= magnitude_units(mag) * d,
    ensures
        rounded(n, d) <= mag,
{
    let k = binade(n, d);
    let e = d * pow2(k);
    let m = half_even(n, e);
    let (sig, top) = (significand(mag), scale(mag));
    lemma_parts(mag);
    lemma_binade_bounds(n, d);
    lemma_rounded_significand(n, d, k);
    lemma2_to64_rest();
    lemma_pow2_pos(k);
    lemma_pow2_pos(top);
    assert(n < d * pow2(53 + top)) by {
        lemma_pow2_adds(53, top);
        assert((sig * pow2(top)) * d < d * (pow2(53) * pow2(top))) by (nonlinear_arith)
            requires
                sig < pow2(53),
                d > 0,
                pow2(top) > 0,
        ;
    }
    if k > top {
        if k > top + 1 {
            lemma_pow2_strictly_increases(53 + top, (52 + k) as nat);
        }
        assert(d * pow2(53 + top) <= d * pow2((52 + k) as nat)) by (nonlinear_arith)
            requires
                pow2(53 + top) <= pow2((52 + k) as nat),
        ;
    } else if k == top {
        assert(e > 0) by (nonlinear_arith)
            requires
                d > 0,
                pow2(k) > 0,
                e == d * pow2(k),
        ;
        lemma_half_even_is_nearest(n, e);
        if m > sig {
            assert((2 * m - 1) * e > 2 * ((sig * pow2(k)) * d)) by (nonlinear_arith)
                requires
                    m >= sig + 1,
                    e > 0,
                    e == d * pow2(k),
            ;
        }
    }
}

} // verus!
