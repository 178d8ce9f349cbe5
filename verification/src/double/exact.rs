//! What every operation on numbers gives: the number nearest to the exact result.

use crate::double::laws::law_rounding_is_nearest;
use crate::double::magnitude::{lemma_parts, lemma_units_increase};
use crate::double::model::{magnitude_units, rounded, scale, significand, INFINITY_BITS};
use crate::double::parse::{is_nearest_magnitude, lemma_between, lemma_infinity_is_nearest};
use crate::double::parse::{lemma_past_all, lemma_tie};
use crate::double::{abs, signed, Double};
use vstd::arithmetic::power2::*;
use vstd::prelude::*;

verus! {

/// Whether `x` is the number nearest to `n / d` units of `2^-1074`: no number is nearer, and if
/// another value is as near, `x` has an even bit pattern. Infinities count as the first powers of
/// two past all finite numbers.
pub open spec fn rounds_to(x: Double, n: int, d: int) -> bool {
    &&& !x.is_nan()
    &&& forall|y: Double|
        !y.is_nan() ==> {
            let near = abs(n - x.units() * d);
            let far = abs(n - #[trigger] y.units() * d);
            near < far || near == far && (y.units() == x.units() || x.bits % 2 == 0)
        }
}

/// Rounding gives the nearest magnitude.
pub proof fn law_rounding_gives_the_nearest_magnitude(n: nat, d: nat)
    requires
        d > 0,
    ensures
        is_nearest_magnitude(n, d, rounded(n, d)),
{
    let r = rounded(n, d);
    let near = abs(n - magnitude_units(r) * d);
    assert forall|other: nat| other <= INFINITY_BITS implies near <= abs(
        n - #[trigger] magnitude_units(other) * d,
    ) by {
        if r < INFINITY_BITS {
            if other < INFINITY_BITS {
                law_rounding_is_nearest(n, d, other);
            } else {
                lemma_infinity_is_farther(n, d);
            }
        } else if other < INFINITY_BITS {
            lemma_infinity_is_nearest(n, d, other);
        }
    }
    assert forall|other: nat| other <= INFINITY_BITS && other != r implies {
        let far = abs(n - #[trigger] magnitude_units(other) * d);
        near < far || near == far && r % 2 == 0
    } by {
        if near == abs(n - magnitude_units(other) * d) {
            if r < other {
                lemma_tie(n, d, r, other);
            } else {
                lemma_tie(n, d, other, r);
            }
        }
    }
}

/// What rounds to a finite number is at least as near to it as to the first power of two past all
/// finite numbers.
proof fn lemma_infinity_is_farther(n: nat, d: nat)
    requires
        d > 0,
        rounded(n, d) < INFINITY_BITS,
    ensures
        abs(n - magnitude_units(rounded(n, d)) * d) <= abs(
            n - magnitude_units(INFINITY_BITS as nat) * d,
        ),
{
    let last = (INFINITY_BITS - 1) as nat;
    let (v, w) = (magnitude_units(last), magnitude_units(INFINITY_BITS as nat));
    lemma2_to64_rest();
    lemma_pow2_adds(52, 2046);
    assert(scale(INFINITY_BITS as nat) == 2046);
    assert(significand(INFINITY_BITS as nat) == pow2(52));
    assert(w == pow2(2098));
    law_rounding_is_nearest(n, d, last);
    lemma_units_increase(last, INFINITY_BITS as nat);
    assert(v * d < w * d) by (nonlinear_arith)
        requires
            v < w,
            d > 0,
    ;
    if n >= w * d {
        assert(d * pow2(2098) == w * d) by (nonlinear_arith)
            requires
                w == pow2(2098),
        ;
        lemma_past_all(n, d);
    } else if n >= v * d {
        lemma_between(n, d, last);
        assert((v + w) * d == v * d + w * d) by (nonlinear_arith);
    }
}

/// The rounded magnitude of an exact result, with its sign, is the number nearest to it.
pub proof fn lemma_signed_rounds(negative: bool, n: int, d: nat)
    requires
        d > 0,
        n < 0 ==> negative,
        n > 0 ==> !negative,
    ensures
        rounds_to(signed(negative, rounded(abs(n), d)), n, d as int),
{
    let m = abs(n);
    let r = rounded(m, d);
    let x = signed(negative, r);
    law_rounding_gives_the_nearest_magnitude(m, d);
    assert(x.magnitude() == r && x.negative() == negative);
    assert(x.bits % 2 == 0 <==> r % 2 == 0);
    let near = abs(m - magnitude_units(r) * d);
    lemma_parts(0);
    assert(0 * d == 0) by (nonlinear_arith);
    assert(near <= m) by {
        if r != 0 {
            assert(near <= abs(m - magnitude_units(0) * d));
        }
    }
    let u = magnitude_units(r);
    assert((-u) * d == -(u * d)) by (nonlinear_arith);
    assert(u * d >= 0) by (nonlinear_arith);
    if n == 0 && r != 0 {
        assert(near <= 0);
        lemma_parts(r);
        assert(u * d > 0) by (nonlinear_arith)
            requires
                u > 0,
                d > 0,
        ;
    }
    assert(abs(n - x.units() * d) == near);
    assert forall|y: Double| !y.is_nan() implies {
        let far = abs(n - #[trigger] y.units() * d);
        near < far || near == far && (y.units() == x.units() || x.bits % 2 == 0)
    } by {
        let other = y.magnitude();
        let v = magnitude_units(other);
        lemma_parts(other);
        assert((-v) * d == -(v * d)) by (nonlinear_arith);
        assert(v > 0 ==> v * d > 0) by (nonlinear_arith)
            requires
                d > 0,
        ;
        if v == 0 {
            assert(v * d == 0) by (nonlinear_arith)
                requires
                    v == 0,
            ;
        }
        let side = abs(m - v * d);
        assert(other == r || near < side || near == side && r % 2 == 0);
        if y.negative() == negative || v == 0 || n == 0 {
            assert(abs(n - y.units() * d) == side);
            if other == r {
                assert(y.units() == x.units() || n == 0);
            }
        } else {
            assert(abs(n - y.units() * d) == m + v * d);
        }
    }
}

/// The sum of finite numbers is the number nearest to the exact sum.
pub proof fn law_sum(a: Double, b: Double)
    requires
        a.is_finite(),
        b.is_finite(),
    ensures
        rounds_to(a.sum(b), a.units() + b.units(), 1),
{
    let total = a.units() + b.units();
    if total == 0 {
        lemma_parts(0);
        lemma_zero_rounds(a.negative() && b.negative());
    } else {
        lemma_signed_rounds(total < 0, total, 1);
    }
}

proof fn lemma_zero_rounds(negative: bool)
    ensures
        rounds_to(signed(negative, 0), 0, 1),
{
    lemma_parts(0);
    assert(signed(negative, 0).units() == 0);
}

/// The difference of finite numbers is the number nearest to the exact difference.
pub proof fn law_difference(a: Double, b: Double)
    requires
        a.is_finite(),
        b.is_finite(),
    ensures
        rounds_to(a.difference(b), a.units() - b.units(), 1),
{
    law_negation(b);
    law_sum(a, b.negated());
}

/// The opposite of a number has the opposite value.
pub proof fn law_negation(a: Double)
    ensures
        a.negated().units() == -a.units(),
        a.negated().is_nan() == a.is_nan(),
        a.negated().is_finite() == a.is_finite(),
{
}

/// The product of finite numbers is the number nearest to the exact product.
pub proof fn law_product(a: Double, b: Double)
    requires
        a.is_finite(),
        b.is_finite(),
    ensures
        rounds_to(a.product(b), a.units() * b.units(), pow2(1074) as int),
{
    let (x, y) = (abs(a.units()), abs(b.units()));
    let n = a.units() * b.units();
    lemma_pow2_pos(1074);
    lemma_parts(a.magnitude());
    lemma_parts(b.magnitude());
    lemma_abs_product(a.units(), b.units());
    lemma_signed_rounds(a.negative() != b.negative(), n, pow2(1074));
}

proof fn lemma_abs_product(a: int, b: int)
    ensures
        abs(a * b) == abs(a) * abs(b),
        a * b > 0 ==> (a < 0) == (b < 0),
        a * b < 0 ==> (a < 0) != (b < 0),
        a * b != 0 ==> a != 0 && b != 0,
{
    assert(a >= 0 && b >= 0 ==> a * b >= 0) by (nonlinear_arith);
    assert(a < 0 && b < 0 ==> a * b > 0 && a * b == (-a) * (-b)) by (nonlinear_arith);
    assert(a >= 0 && b < 0 ==> a * b <= 0 && a * b == -(a * (-b))) by (nonlinear_arith);
    assert(a < 0 && b >= 0 ==> a * b <= 0 && a * b == -((-a) * b)) by (nonlinear_arith);
    assert(a == 0 || b == 0 ==> a * b == 0) by (nonlinear_arith);
}

/// The quotient of a finite number by a positive one is the number nearest to the exact quotient.
pub proof fn law_quotient(a: Double, b: Double)
    requires
        a.is_finite(),
        b.is_finite(),
        b.units() > 0,
    ensures
        rounds_to(a.quotient(b), a.units() * pow2(1074), b.units()),
{
    let n = a.units() * pow2(1074);
    lemma_pow2_pos(1074);
    lemma_parts(a.magnitude());
    lemma_parts(b.magnitude());
    lemma_abs_product(a.units(), pow2(1074) as int);
    lemma_signed_rounds(a.negative(), n, b.units() as nat);
}

/// The quotient by a negative number is the opposite of that by its opposite.
pub proof fn law_quotient_by_negative(a: Double, b: Double)
    requires
        a.is_finite(),
        b.is_finite(),
        b.units() < 0,
    ensures
        rounds_to(a.quotient(b), -(a.units() * pow2(1074)), -b.units()),
{
    let n = -(a.units() * pow2(1074));
    lemma_pow2_pos(1074);
    lemma_parts(a.magnitude());
    lemma_parts(b.magnitude());
    lemma_abs_product(a.units(), pow2(1074) as int);
    lemma_signed_rounds(!a.negative(), n, (-b.units()) as nat);
}

/// There is no second number nearest to a quotient: the value is determined.
pub proof fn law_the_nearest_number_is_unique(x: Double, y: Double, n: int, d: int)
    requires
        d > 0,
        rounds_to(x, n, d),
        rounds_to(y, n, d),
    ensures
        x.units() == y.units(),
{
    if x.units() < y.units() {
        lemma_two_nearest(x, y, n, d);
    } else if y.units() < x.units() {
        lemma_two_nearest(y, x, n, d);
    }
}

proof fn lemma_two_nearest(x: Double, y: Double, n: int, d: int)
    requires
        d > 0,
        rounds_to(x, n, d),
        rounds_to(y, n, d),
    ensures
        !(x.units() < y.units()),
{
    if x.units() < y.units() {
        let (a, b) = (x.units(), y.units());
        assert(abs(n - x.units() * d) <= abs(n - y.units() * d));
        assert(abs(n - y.units() * d) <= abs(n - x.units() * d));
        assert(x.bits % 2 == 0 && y.bits % 2 == 0);
        assert(a * d < b * d) by (nonlinear_arith)
            requires
                a < b,
                d > 0,
        ;
        let (p, q) = (x.magnitude(), y.magnitude());
        lemma_parts(p);
        lemma_parts(q);
        lemma_parts(0);
        let z = if a < 0 && b > 0 {
            Double { bits: 0 }
        } else if a >= 0 {
            signed(false, p + 1)
        } else {
            signed(true, q + 1)
        };
        if a < 0 && b > 0 {
            assert(z.units() == 0);
        } else if a >= 0 {
            assert(p < q) by {
                if q < p {
                    lemma_units_increase(q, p);
                }
            }
            assert(z.magnitude() == p + 1 && !z.negative());
            lemma_units_increase(p, p + 1);
            if p + 1 < q {
                lemma_units_increase(p + 1, q);
            }
        } else {
            assert(q < p) by {
                if p < q {
                    lemma_units_increase(p, q);
                }
            }
            assert(z.magnitude() == q + 1 && z.negative());
            lemma_units_increase(q, q + 1);
            if q + 1 < p {
                lemma_units_increase(q + 1, p);
            }
        }
        let c = z.units();
        assert(!z.is_nan());
        assert(a < c < b ==> a * d < c * d < b * d) by (nonlinear_arith)
            requires
                d > 0,
        ;
        assert(abs(n - x.units() * d) <= abs(n - z.units() * d));
    }
}

/// What is no number stays none: it is neither above, below nor at any number, and every result
/// of it is no number.
pub proof fn law_no_number_stays_none(a: Double, b: Double)
    requires
        a.is_nan() || b.is_nan(),
    ensures
        !a.is_below(b) && !a.is_at_most(b),
        a.sum(b).is_nan(),
        a.difference(b).is_nan(),
        a.product(b).is_nan(),
        a.quotient(b).is_nan(),
{
    law_negation(b);
}

/// The sign of a product and of a quotient is that of the two operands together; a sum of nothing
/// is negative if both operands are.
pub proof fn law_signs_of_results(a: Double, b: Double)
    ensures
        !a.product(b).is_nan() ==> a.product(b).negative() == (a.negative() != b.negative()),
        !a.quotient(b).is_nan() ==> a.quotient(b).negative() == (a.negative() != b.negative()),
        a.is_finite() && b.is_finite() && a.units() + b.units() == 0 ==> a.sum(b).is_zero()
            && a.sum(b).negative() == (a.negative() && b.negative()),
{
}

/// Sums with an infinity, products of one and quotients by zero or of infinities.
pub proof fn law_infinite_results(a: Double, b: Double)
    requires
        !a.is_nan(),
        !b.is_nan(),
    ensures
        a.is_infinite() && b.is_finite() ==> a.sum(b) == a && b.sum(a) == a,
        a.is_infinite() && b.is_infinite() && a.negative() == b.negative() ==> a.sum(b) == a,
        a.is_infinite() && b.is_infinite() && a.negative() != b.negative() ==> a.sum(b).is_nan(),
        a.is_infinite() && !b.is_zero() ==> a.product(b).is_infinite() && b.product(
            a,
        ).is_infinite(),
        a.is_infinite() && b.is_zero() ==> a.product(b).is_nan() && b.product(a).is_nan(),
        a.is_infinite() && b.is_infinite() ==> a.quotient(b).is_nan(),
        a.is_infinite() && b.is_finite() ==> a.quotient(b).is_infinite(),
        a.is_finite() && b.is_infinite() ==> a.quotient(b).is_zero(),
        a.is_zero() && b.is_zero() ==> a.quotient(b).is_nan(),
        !a.is_zero() && b.is_zero() && a.is_finite() ==> a.quotient(b).is_infinite(),
{
}

/// What a bit pattern means: the highest bit is the sign, the next eleven are the exponent, and
/// the other 52 the fraction, which has a bit more in front unless the exponent is zero. The
/// largest exponent is that of infinity and of what is no number.
pub proof fn law_bit_patterns(x: Double)
    ensures
        ({
            let size = x.bits as int % 0x8000_0000_0000_0000;
            let exponent = size / 0x10_0000_0000_0000;
            let fraction = size % 0x10_0000_0000_0000;
            let value = if x.bits >= 0x8000_0000_0000_0000 {
                -x.units()
            } else {
                x.units()
            };
            &&& exponent == 0 ==> value == fraction
            &&& 0 < exponent < 2047 ==> value == (0x10_0000_0000_0000 + fraction) * pow2(
                (exponent - 1) as nat,
            )
            &&& x.is_finite() <==> exponent < 2047
            &&& x.is_infinite() <==> exponent == 2047 && fraction == 0
            &&& x.is_nan() <==> exponent == 2047 && fraction != 0
        }),
{
    lemma2_to64();
    let mag = x.magnitude();
    assert(mag == x.bits as int % 0x8000_0000_0000_0000);
    assert(mag < 0x10_0000_0000_0000 ==> significand(mag) * pow2(0) == mag) by (nonlinear_arith)
        requires
            pow2(0) == 1,
            mag < 0x10_0000_0000_0000 ==> significand(mag) == mag,
    ;
}

} // verus!
