//! Rounding of a scaled integer to a magnitude.

use crate::double::model::{binade, half_even, rounded, EXPONENT_UNIT, INFINITY_BITS};
use vstd::arithmetic::div_mod::*;
use vstd::arithmetic::mul::*;
use vstd::arithmetic::power2::*;
use vstd::prelude::*;

verus! {

/// `m` is the integer nearest to `n / d`, and even if another one is as near.
pub open spec fn is_nearest(n: nat, d: nat, m: nat) -> bool {
    &&& 2 * n <= (2 * m + 1) * d
    &&& (2 * m - 1) * d <= 2 * n
    &&& 2 * n == (2 * m + 1) * d ==> m % 2 == 0
    &&& 2 * n == (2 * m - 1) * d ==> m % 2 == 0
}

pub proof fn lemma_half_even_is_nearest(n: nat, d: nat)
    requires
        d > 0,
    ensures
        is_nearest(n, d, half_even(n, d)),
{
    let q = n / d;
    let r = n % d;
    lemma_fundamental_div_mod(n as int, d as int);
    assert(2 * n == 2 * (d * q) + 2 * r);
    assert((2 * q + 1) * d == 2 * (d * q) + d) by (nonlinear_arith);
    assert((2 * q - 1) * d == 2 * (d * q) - d) by (nonlinear_arith);
    assert((2 * (q + 1) + 1) * d == 2 * (d * q) + 3 * d) by (nonlinear_arith);
    assert((2 * (q + 1) - 1) * d == 2 * (d * q) + d) by (nonlinear_arith);
}

pub proof fn lemma_nearest_unique(n: nat, d: nat, m1: nat, m2: nat)
    requires
        d > 0,
        is_nearest(n, d, m1),
        is_nearest(n, d, m2),
    ensures
        m1 == m2,
{
    lemma_nearest_not_above(n, d, m1, m2);
    lemma_nearest_not_above(n, d, m2, m1);
}

proof fn lemma_nearest_not_above(n: nat, d: nat, high: nat, low: nat)
    requires
        d > 0,
        is_nearest(n, d, low),
        is_nearest(n, d, high),
    ensures
        high <= low,
{
    if low < high {
        assert((2 * high - 1) * d >= (2 * low + 1) * d) by (nonlinear_arith)
            requires
                low < high,
                d > 0,
        ;
        if high > low + 1 {
            assert((2 * high - 1) * d > (2 * low + 1) * d) by (nonlinear_arith)
                requires
                    low + 1 < high,
                    d > 0,
            ;
        } else {
            assert(low % 2 == 0 && high % 2 == 0);
        }
    }
}

/// Scaling numerator and denominator alike leaves the nearest integer unchanged.
pub proof fn lemma_half_even_scaled(n: nat, d: nat, c: nat)
    requires
        d > 0,
        c > 0,
    ensures
        half_even(n * c, d * c) == half_even(n, d),
{
    let m = half_even(n, d);
    lemma_half_even_is_nearest(n, d);
    assert(d * c > 0) by (nonlinear_arith)
        requires
            d > 0,
            c > 0,
    ;
    assert(2 * (n * c) == (2 * n) * c) by (nonlinear_arith);
    assert((2 * m + 1) * (d * c) == ((2 * m + 1) * d) * c) by (nonlinear_arith);
    assert((2 * m - 1) * (d * c) == ((2 * m - 1) * d) * c) by (nonlinear_arith);
    lemma_mul_inequality((2 * n) as int, ((2 * m + 1) * d) as int, c as int);
    lemma_mul_inequality((2 * m - 1) * d, (2 * n) as int, c as int);
    if 2 * n != (2 * m + 1) * d {
        lemma_mul_strict_inequality((2 * n) as int, ((2 * m + 1) * d) as int, c as int);
    }
    if 2 * n != (2 * m - 1) * d {
        lemma_mul_strict_inequality((2 * m - 1) * d, (2 * n) as int, c as int);
    }
    lemma_half_even_is_nearest(n * c, d * c);
    lemma_nearest_unique(n * c, d * c, half_even(n * c, d * c), m);
}

/// The binade of `n / d` is the scale at which it has a full significand, or the lowest one.
pub proof fn lemma_binade(n: nat, d: nat, k: nat)
    requires
        d > 0,
        n < d * pow2(53 + k),
        k > 0 ==> n >= d * pow2((52 + k) as nat),
    ensures
        binade(n, d) == k,
    decreases k,
{
    lemma_pow2_pos(53);
    if k > 0 {
        lemma_pow2_unfold((53 + k) as nat);
        lemma_pow2_unfold((52 + k) as nat);
        assert((2 * d) * pow2((52 + k) as nat) == d * (2 * pow2((52 + k) as nat)))
            by (nonlinear_arith);
        assert((2 * d) * pow2((51 + k) as nat) == d * (2 * pow2((51 + k) as nat)))
            by (nonlinear_arith);
        lemma_binade(n, 2 * d, (k - 1) as nat);
        if k > 1 {
            lemma_pow2_strictly_increases(53, (52 + k) as nat);
        }
        assert(d * pow2(53) <= d * pow2((52 + k) as nat)) by (nonlinear_arith)
            requires
                pow2(53) <= pow2((52 + k) as nat),
        ;
    }
}

/// Bounds on the significand that `n / d` rounds to at its binade.
pub proof fn lemma_rounded_significand(n: nat, d: nat, k: nat)
    requires
        d > 0,
        n < d * pow2(53 + k),
    ensures
        half_even(n, d * pow2(k)) <= pow2(53),
        n >= d * pow2((52 + k) as nat) ==> half_even(n, d * pow2(k)) >= pow2(52),
{
    let e = d * pow2(k);
    let m = half_even(n, e);
    lemma_pow2_pos(k);
    assert(e > 0) by (nonlinear_arith)
        requires
            d > 0,
            pow2(k) > 0,
            e == d * pow2(k),
    ;
    lemma_half_even_is_nearest(n, e);
    lemma_pow2_adds(53, k);
    lemma_pow2_adds(52, k);
    assert(d * (pow2(53) * pow2(k)) == pow2(53) * e) by (nonlinear_arith)
        requires
            e == d * pow2(k),
    ;
    assert(d * (pow2(52) * pow2(k)) == pow2(52) * e) by (nonlinear_arith)
        requires
            e == d * pow2(k),
    ;
    if m > pow2(53) {
        assert((2 * m - 1) * e >= 2 * (pow2(53) * e)) by (nonlinear_arith)
            requires
                m > pow2(53),
                e > 0,
        ;
    }
    if m < pow2(52) && n >= pow2(52) * e {
        assert((2 * m + 1) * e < 2 * (pow2(52) * e)) by (nonlinear_arith)
            requires
                m < pow2(52),
                e > 0,
        ;
    }
}

/// `2^s` for `s >= 0`, else 1.
pub open spec fn up(s: int) -> nat {
    if s >= 0 {
        pow2(s as nat)
    } else {
        1
    }
}

/// `2^-s` for `s < 0`, else 1.
pub open spec fn down(s: int) -> nat {
    up(-s)
}

/// `n / d` equals `p * 2^s`, or lies strictly between `p * 2^s` and `(p + 1) * 2^s`.
pub open spec fn brackets(n: nat, d: nat, p: nat, s: int, inexact: bool) -> bool {
    if inexact {
        p * (d * up(s)) < n * down(s) < (p + 1) * (d * up(s))
    } else {
        n * down(s) == p * (d * up(s))
    }
}

pub proof fn lemma_shift(a: nat, s: int, b: nat)
    requires
        a + s == b,
    ensures
        pow2(a) * up(s) == pow2(b) * down(s),
        up(s) > 0,
        down(s) > 0,
{
    assert(pow2(0) == 1) by {
        lemma2_to64();
    }
    if s >= 0 {
        lemma_pow2_adds(a, s as nat);
        lemma_pow2_pos(s as nat);
        assert(down(s) == 1);
        lemma_mul_basics(pow2(b) as int);
    } else {
        lemma_pow2_adds(b, (-s) as nat);
        lemma_pow2_pos((-s) as nat);
        lemma_mul_basics(pow2(a) as int);
    }
}

/// The binade of a bracketed quotient follows from the bit length of `p`.
proof fn lemma_bracketed_binade(n: nat, d: nat, p: nat, s: int, inexact: bool, len: nat, k: nat)
    requires
        d > 0,
        len > 0,
        pow2((len - 1) as nat) <= p < pow2(len),
        brackets(n, d, p, s, inexact),
        len + s <= 53 + k,
        k > 0 ==> len + s == 53 + k,
    ensures
        binade(n, d) == k,
        n < d * pow2(53 + k),
        k > 0 ==> n >= d * pow2((52 + k) as nat),
{
    let y = d * up(s);
    let x = n * down(s);
    let gap = (53 + k - len - s) as nat;
    lemma_shift(len + gap, s, 53 + k);
    assert(y > 0) by (nonlinear_arith)
        requires
            d > 0,
            up(s) > 0,
            y == d * up(s),
    ;
    lemma_pow2_adds(len, gap);
    lemma_pow2_pos(gap);
    lemma_pow2_pos(len);
    assert(x < pow2(len) * y) by {
        assert((p + 1) * y <= pow2(len) * y) by (nonlinear_arith)
            requires
                p + 1 <= pow2(len),
        ;
        assert(p * y < (p + 1) * y) by (nonlinear_arith)
            requires
                y > 0,
        ;
    }
    assert(pow2(len) <= pow2(len + gap)) by (nonlinear_arith)
        requires
            pow2(len + gap) == pow2(len) * pow2(gap),
            pow2(gap) > 0,
    ;
    assert(pow2(len) * y <= pow2(len + gap) * y) by (nonlinear_arith)
        requires
            pow2(len) <= pow2(len + gap),
    ;
    assert(pow2(len + gap) * y == (d * pow2(53 + k)) * down(s)) by (nonlinear_arith)
        requires
            y == d * up(s),
            pow2(len + gap) * up(s) == pow2(53 + k) * down(s),
    ;
    assert(n < d * pow2(53 + k)) by (nonlinear_arith)
        requires
            n * down(s) < (d * pow2(53 + k)) * down(s),
            down(s) > 0,
    ;
    if k > 0 {
        lemma_shift((len - 1) as nat, s, (52 + k) as nat);
        assert(pow2((len - 1) as nat) * y == (d * pow2((52 + k) as nat)) * down(s))
            by (nonlinear_arith)
            requires
                y == d * up(s),
                pow2((len - 1) as nat) * up(s) == pow2((52 + k) as nat) * down(s),
        ;
        assert(pow2((len - 1) as nat) * y <= p * y) by (nonlinear_arith)
            requires
                pow2((len - 1) as nat) <= p,
        ;
        assert(n >= d * pow2((52 + k) as nat)) by (nonlinear_arith)
            requires
                n * down(s) >= (d * pow2((52 + k) as nat)) * down(s),
                down(s) > 0,
        ;
    }
    lemma_binade(n, d, k);
}

/// Rounding a bracketed quotient by dropping the low `t` bits of `p`.
proof fn lemma_bracketed_half_even(
    n: nat,
    d: nat,
    p: nat,
    s: int,
    inexact: bool,
    k: nat,
    t: nat,
    q: nat,
    r: nat,
    m: nat,
)
    requires
        d > 0,
        t > 0,
        t == k - s,
        brackets(n, d, p, s, inexact),
        p == q * pow2(t) + r,
        r < pow2(t),
        m == (if 2 * r > pow2(t) || (2 * r == pow2(t) && (inexact || q % 2 == 1)) {
            q + 1
        } else {
            q
        }),
    ensures
        half_even(n, d * pow2(k)) == m,
{
    let y = d * up(s);
    let x = n * down(s);
    let w = pow2(t);
    let e = d * pow2(k);
    lemma_shift(t, s, k);
    lemma_pow2_pos(t);
    lemma_pow2_pos(k);
    lemma_pow2_unfold(t);
    assert(y > 0 && e > 0) by (nonlinear_arith)
        requires
            d > 0,
            up(s) > 0,
            pow2(k) > 0,
            y == d * up(s),
            e == d * pow2(k),
    ;
    assert(e * down(s) == y * w) by (nonlinear_arith)
        requires
            y == d * up(s),
            e == d * pow2(k),
            w * up(s) == pow2(k) * down(s),
    ;
    // Everything is compared in multiples of `y`.
    let high = (2 * m + 1) * w;
    let low = (2 * m - 1) * w;
    assert(high == 2 * (m * w) + w && low == 2 * (m * w) - w) by (nonlinear_arith)
        requires
            high == (2 * m + 1) * w,
            low == (2 * m - 1) * w,
    ;
    assert((q + 1) * w == q * w + w) by (nonlinear_arith);
    assert((2 * m + 1) * (y * w) == high * y && (2 * m - 1) * (y * w) == low * y)
        by (nonlinear_arith)
        requires
            high == (2 * m + 1) * w,
            low == (2 * m - 1) * w,
    ;
    assert(2 * (p * y) == (2 * p) * y && 2 * ((p + 1) * y) == (2 * p + 2) * y) by (nonlinear_arith);
    assert(low <= 2 * p <= high);
    lemma_mul_inequality(low, (2 * p) as int, y as int);
    lemma_mul_inequality((2 * p) as int, high as int, y as int);
    if inexact {
        assert(2 * p + 2 <= high);
        lemma_mul_inequality((2 * p + 2) as int, high as int, y as int);
    } else {
        if 2 * p < high {
            lemma_mul_strict_inequality((2 * p) as int, high as int, y as int);
        }
        if low < 2 * p {
            lemma_mul_strict_inequality(low, (2 * p) as int, y as int);
        }
    }
    assert(is_nearest(x, y * w, m));
    assert(y * w > 0) by (nonlinear_arith)
        requires
            y > 0,
            w > 0,
    ;
    lemma_half_even_is_nearest(x, y * w);
    lemma_nearest_unique(x, y * w, half_even(x, y * w), m);
    lemma_half_even_scaled(n, e, down(s));
}

/// A quotient that is an integer at its binade rounds to that integer.
proof fn lemma_exact_half_even(n: nat, d: nat, p: nat, s: int, k: nat, u: nat)
    requires
        d > 0,
        u == s - k,
        brackets(n, d, p, s, false),
    ensures
        half_even(n, d * pow2(k)) == p * pow2(u),
{
    let e = d * pow2(k);
    let m = p * pow2(u);
    assert(n * down(s) == n) by {
        lemma2_to64();
        assert(down(s) == 1);
        lemma_mul_basics(n as int);
    }
    lemma_pow2_adds(k, u);
    lemma_pow2_pos(k);
    assert(e > 0) by (nonlinear_arith)
        requires
            d > 0,
            pow2(k) > 0,
            e == d * pow2(k),
    ;
    assert(n == m * e) by (nonlinear_arith)
        requires
            n == p * (d * pow2(s as nat)),
            pow2(s as nat) == pow2(k) * pow2(u),
            m == p * pow2(u),
            e == d * pow2(k),
    ;
    lemma_div_by_multiple(m as int, e as int);
    lemma_mod_multiples_basic(m as int, e as int);
}

/// The number of significant bits of `p`.
fn bit_length(p: u128) -> (len: u32)
    ensures
        len <= 128,
        p < pow2(len as nat),
        p == 0 <==> len == 0,
        len > 0 ==> pow2((len - 1) as nat) <= p,
{
    let mut rest: u128 = p;
    let mut len: u32 = 0;
    proof {
        lemma2_to64();
        lemma_pow2_adds(64, 64);
        assert(0x10000000000000000 * 0x10000000000000000
            == 0x100000000000000000000000000000000) by (nonlinear_arith);
    }
    while rest > 0
        invariant
            pow2(128) == 0x100000000000000000000000000000000,
            rest * pow2(len as nat) <= p < (rest + 1) * pow2(len as nat),
            len == 0 ==> rest == p,
            len > 0 ==> pow2((len - 1) as nat) <= p,
            len <= 128,
        decreases rest,
    {
        proof {
            let w = pow2(len as nat);
            lemma_pow2_pos(len as nat);
            assert(w <= p) by (nonlinear_arith)
                requires
                    rest > 0,
                    rest * w <= p,
            ;
            if len >= 128 {
                if len > 128 {
                    lemma_pow2_strictly_increases(128, len as nat);
                }
            }
            lemma_pow2_unfold((len + 1) as nat);
            let half = rest / 2;
            assert(half * (2 * w) <= p < (half + 1) * (2 * w)) by (nonlinear_arith)
                requires
                    rest * w <= p < (rest + 1) * w,
                    2 * half <= rest < 2 * half + 2,
            ;
        }
        rest = rest / 2;
        len = len + 1;
    }
    proof {
        lemma_mul_basics(pow2(len as nat) as int);
        if len > 0 {
            lemma_pow2_pos((len - 1) as nat);
        }
    }
    len
}

/// Two to the power of `t`.
pub(crate) fn power_of_two(t: u32) -> (r: u128)
    requires
        t <= 127,
    ensures
        r == pow2(t as nat),
{
    let mut r: u128 = 1;
    let mut i: u32 = 0;
    proof {
        lemma2_to64();
        lemma2_to64_rest();
        lemma_pow2_adds(64, 63);
        assert(0x10000000000000000 * 0x8000000000000000 == 0x80000000000000000000000000000000)
            by (nonlinear_arith);
    }
    while i < t
        invariant
            pow2(127) == 0x80000000000000000000000000000000,
            i <= t <= 127,
            r == pow2(i as nat),
        decreases t - i,
    {
        proof {
            lemma_pow2_unfold((i + 1) as nat);
            if i + 1 < 127 {
                lemma_pow2_strictly_increases((i + 1) as nat, 127);
            }
        }
        r = r * 2;
        i = i + 1;
    }
    r
}

/// Rounds `n / d` to the nearest magnitude, given `p`, `s` and `inexact` that bracket it. An
/// inexact quotient needs two bits of `p` below its significand.
pub(crate) fn round_scaled(
    p: u128,
    s: i64,
    inexact: bool,
    Ghost(n): Ghost<nat>,
    Ghost(d): Ghost<nat>,
) -> (mag: u64)
    requires
        d > 0,
        p < pow2(127),
        -10000 <= s <= 10000,
        inexact ==> p >= pow2(55),
        brackets(n, d, p as nat, s as int, inexact),
    ensures
        mag == rounded(n, d),
        mag <= INFINITY_BITS,
{
    proof {
        lemma2_to64();
        lemma2_to64_rest();
    }
    if p == 0 {
        proof {
            lemma_shift((if s >= 0 { 0int } else { -s as int }) as nat, s as int, (if s >= 0 { s as int } else { 0int }) as nat);
            assert(n == 0) by (nonlinear_arith)
                requires
                    n * down(s as int) == 0 * (d * up(s as int)),
                    down(s as int) > 0,
            ;
            assert(d * pow2(53) > 0 && d * 1 == d) by (nonlinear_arith)
                requires
                    d > 0,
                    pow2(53) > 0,
            ;
            assert(binade(n, d) == 0);
            assert(half_even(0, d) == 0) by {
                lemma_small_mod(0, d);
                lemma_div_basics(d as int);
            }
        }
        return 0;
    }
    let len: i64 = bit_length(p) as i64;
    proof {
        if len >= 128 {
            if len > 128 {
                lemma_pow2_strictly_increases(127, (len - 1) as nat);
            }
        }
        if inexact && len < 56 {
            if len < 55 {
                lemma_pow2_strictly_increases(len as nat, 55);
            }
        }
    }
    let k: i64 = if len + s > 53 {
        len + s - 53
    } else {
        0
    };
    proof {
        lemma_bracketed_binade(n, d, p as nat, s as int, inexact, len as nat, k as nat);
        lemma_rounded_significand(n, d, k as nat);
    }
    if k >= 2046 {
        return INFINITY_BITS;
    }
    let t: i64 = k - s;
    let m: u128 = if t <= 0 {
        proof {
            lemma_exact_half_even(n, d, p as nat, s as int, k as nat, (-t) as nat);
            assert(p as nat * pow2((-t) as nat) <= pow2(53));
            lemma_pow2_pos((-t) as nat);
            assert(pow2((-t) as nat) <= p as nat * pow2((-t) as nat)) by (nonlinear_arith)
                requires
                    p > 0,
            ;
            if -t > 53 {
                lemma_pow2_strictly_increases(53, (-t) as nat);
            }
        }
        p * power_of_two((-t) as u32)
    } else if t > len {
        proof {
            lemma_pow2_unfold(t as nat);
            if len < t - 1 {
                lemma_pow2_strictly_increases(len as nat, (t - 1) as nat);
            }
            lemma_bracketed_half_even(
                n,
                d,
                p as nat,
                s as int,
                inexact,
                k as nat,
                t as nat,
                0,
                p as nat,
                0,
            );
        }
        0
    } else {
        let w: u128 = power_of_two(t as u32);
        proof {
            lemma_pow2_pos(t as nat);
            lemma_pow2_unfold(t as nat);
        }
        let q: u128 = p / w;
        let r: u128 = p % w;
        proof {
            lemma_fundamental_div_mod(p as int, w as int);
            lemma_mul_is_commutative(q as int, w as int);
        }
        let half: u128 = w / 2;
        let up: bool = r > half || (r == half && (inexact || q % 2 == 1));
        proof {
            lemma_bracketed_half_even(
                n,
                d,
                p as nat,
                s as int,
                inexact,
                k as nat,
                t as nat,
                q as nat,
                r as nat,
                (if up { q + 1 } else { q as int }) as nat,
            );
        }
        if up {
            q + 1
        } else {
            q
        }
    };
    (k as u64) * EXPONENT_UNIT + (m as u64)
}

} // verus!
