//! Numbers from texts.

use crate::double::laws::{law_rounding_is_nearest, law_rounding_stays_below};
use crate::double::laws::lemma_binade_bounds;
use crate::double::magnitude::{lemma_next_units, lemma_parts, lemma_units_increase, parts};
use crate::double::model::{binade, magnitude_units, rounded, scale, significand};
use crate::double::model::{EXPONENT_UNIT, INFINITY_BITS};
use crate::double::rounding::{lemma_binade, lemma_rounded_significand};
use crate::double::{abs, signed, Double, NAN_BITS};
use crate::natural::{at_most, natural, scaled, shifted};
use crate::text::{decimal, lemma_decimal_digits};
use vstd::arithmetic::div_mod::*;
use vstd::arithmetic::power2::*;
use vstd::prelude::*;
use vstd::string::*;

verus! {

/// Ten to the power of `k`.
pub open spec fn ten(k: nat) -> nat
    decreases k,
{
    if k == 0 {
        1
    } else {
        10 * ten((k - 1) as nat)
    }
}

/// The value of `digits * 10^exponent`, counted in parts of a unit of `2^-1074`.
pub open spec fn parts_of(digits: nat, exponent: int) -> nat {
    if exponent >= 0 {
        digits * ten(exponent as nat) * pow2(1074)
    } else {
        digits * pow2(1074)
    }
}

/// How many of these parts a unit has.
pub open spec fn parts_per_unit(exponent: int) -> nat {
    if exponent >= 0 {
        1
    } else {
        ten((-exponent) as nat)
    }
}

/// The magnitude nearest to `digits * 10^exponent`.
pub open spec fn nearest(digits: nat, exponent: int) -> nat {
    rounded(parts_of(digits, exponent), parts_per_unit(exponent))
}

/// A quotient rounds to one of the magnitudes on both sides of it: to the nearer one, or, in the
/// middle, to the even one.
pub proof fn lemma_between(n: nat, d: nat, low: nat)
    requires
        d > 0,
        low < INFINITY_BITS,
        magnitude_units(low) * d <= n < magnitude_units(low + 1) * d,
    ensures
        rounded(n, d) == ({
            let middle = (magnitude_units(low) + magnitude_units(low + 1)) * d;
            if 2 * n < middle {
                low
            } else if 2 * n > middle {
                low + 1
            } else {
                low + low % 2
            }
        }),
{
    let (m, k) = (significand(low), scale(low));
    let e = d * pow2(k);
    lemma2_to64_rest();
    lemma_parts(low);
    lemma_next_units(low);
    lemma_pow2_pos(k);
    lemma_pow2_adds(53, k);
    lemma_pow2_adds(52, k);
    assert(e > 0 && m * e <= n < (m + 1) * e) by (nonlinear_arith)
        requires
            d > 0,
            pow2(k) > 0,
            e == d * pow2(k),
            (m * pow2(k)) * d <= n < ((m + 1) * pow2(k)) * d,
    ;
    assert(n < d * pow2(53 + k)) by (nonlinear_arith)
        requires
            n < (m + 1) * e,
            m + 1 <= pow2(53),
            e == d * pow2(k),
            pow2(53 + k) == pow2(53) * pow2(k),
    ;
    if k > 0 {
        assert(n >= d * pow2((52 + k) as nat)) by (nonlinear_arith)
            requires
                n >= m * e,
                m >= pow2(52),
                e == d * pow2(k),
                pow2((52 + k) as nat) == pow2(52) * pow2(k),
        ;
    }
    lemma_binade(n, d, k);
    assert((m + 1) * e == m * e + e) by (nonlinear_arith);
    lemma_fundamental_div_mod_converse(n as int, e as int, m as int, n - m * e);
    assert((m * pow2(k) + (m + 1) * pow2(k)) * d == 2 * (m * e) + e) by (nonlinear_arith)
        requires
            e == d * pow2(k),
    ;
    assert(low == k * EXPONENT_UNIT + m);
    assert(low % 2 == m % 2);
}

/// What lies at or past the first power of two that is no finite number rounds to infinity.
pub proof fn lemma_past_all(n: nat, d: nat)
    requires
        d > 0,
        n >= d * pow2(2098),
    ensures
        rounded(n, d) == INFINITY_BITS,
{
    let k = binade(n, d);
    lemma2_to64_rest();
    lemma_binade_bounds(n, d);
    assert(k >= 2046) by {
        if k < 2046 {
            if 53 + k < 2098 {
                lemma_pow2_strictly_increases(53 + k, 2098);
            }
            assert(d * pow2(53 + k) <= d * pow2(2098)) by (nonlinear_arith)
                requires
                    pow2(53 + k) <= pow2(2098),
            ;
        }
    }
    lemma_rounded_significand(n, d, k);
}

/// What lies below half of the smallest number rounds to zero.
proof fn lemma_below_all(n: nat, d: nat)
    requires
        2 * n < d,
    ensures
        rounded(n, d) == 0,
{
    lemma2_to64();
    lemma2_to64_rest();
    assert(n < d * pow2(53)) by (nonlinear_arith)
        requires
            2 * n < d,
            pow2(53) > 1,
    ;
    lemma_small_mod(n, d);
    lemma_basic_div(n as int, d as int);
    assert(d * pow2(0) == d) by (nonlinear_arith)
        requires
            pow2(0) == 1,
    ;
}

pub proof fn lemma_ten_adds(a: nat, b: nat)
    ensures
        ten(a + b) == ten(a) * ten(b),
        ten(a) > 0,
    decreases a,
{
    if a > 0 {
        lemma_ten_adds((a - 1) as nat, b);
        assert(10 * (ten((a - 1) as nat) * ten(b)) == (10 * ten((a - 1) as nat)) * ten(b))
            by (nonlinear_arith);
    } else {
        assert(1 * ten(b) == ten(b)) by (nonlinear_arith);
    }
}

/// Powers of ten exceed powers of eight.
proof fn lemma_ten_large(k: nat)
    ensures
        ten(k) >= pow2(3 * k),
    decreases k,
{
    lemma2_to64();
    if k > 0 {
        lemma_ten_large((k - 1) as nat);
        lemma_pow2_adds(3, (3 * (k - 1)) as nat);
    }
}

/// A number with a high exponent is past all finite numbers.
proof fn lemma_huge(digits: nat, exponent: int)
    requires
        digits > 0,
        exponent >= 400,
    ensures
        nearest(digits, exponent) == INFINITY_BITS,
{
    let n = digits * ten(exponent as nat) * pow2(1074);
    lemma_ten_adds(400, (exponent - 400) as nat);
    lemma_ten_adds((exponent - 400) as nat, 0);
    lemma_ten_large(400);
    lemma_pow2_strictly_increases(1024, 1200);
    lemma_pow2_adds(1024, 1074);
    lemma_pow2_pos(1074);
    assert(ten(exponent as nat) >= pow2(1024)) by (nonlinear_arith)
        requires
            ten(exponent as nat) == ten(400) * ten((exponent - 400) as nat),
            ten(400) >= pow2(1024),
            ten((exponent - 400) as nat) >= 1,
    ;
    assert(n >= pow2(1024) * pow2(1074)) by (nonlinear_arith)
        requires
            n == digits * ten(exponent as nat) * pow2(1074),
            digits >= 1,
            ten(exponent as nat) >= pow2(1024),
    ;
    assert(1 * pow2(2098) == pow2(2098)) by (nonlinear_arith);
    lemma_past_all(n, 1);
}

/// A number with a low exponent is nearest to zero.
proof fn lemma_tiny(digits: nat, length: nat, exponent: int)
    requires
        digits < ten(length),
        exponent + length <= -400,
    ensures
        nearest(digits, exponent) == 0,
{
    let n = digits * pow2(1074);
    let d = ten((-exponent) as nat);
    let rest = (-exponent - length - 400) as nat;
    lemma_ten_adds(length + 400, rest);
    lemma_ten_adds(rest, 0);
    lemma_ten_adds(length, 400);
    lemma_ten_large(400);
    lemma_pow2_strictly_increases(1075, 1200);
    lemma_pow2_unfold(1075);
    lemma_pow2_pos(1074);
    assert(2 * n < ten(length) * (2 * pow2(1074))) by (nonlinear_arith)
        requires
            n == digits * pow2(1074),
            digits < ten(length),
            pow2(1074) > 0,
    ;
    assert(ten(length) * (2 * pow2(1074)) <= ten(length) * ten(400)) by (nonlinear_arith)
        requires
            2 * pow2(1074) <= ten(400),
    ;
    assert(d >= ten(length + 400)) by (nonlinear_arith)
        requires
            d == ten(length + 400) * ten(rest),
            ten(rest) >= 1,
    ;
    lemma_below_all(n, d);
}

/// A number of units times the value of a magnitude.
fn units_times(d: &Vec<u64>, m: u64, k: u64) -> (r: Vec<u64>)
    ensures
        natural(r@) == (m * pow2(k as nat)) * natural(d@),
{
    let high: Vec<u64> = shifted(d, k);
    proof {
        assert((natural(d@) * pow2(k as nat)) * m == (m * pow2(k as nat)) * natural(d@))
            by (nonlinear_arith);
    }
    scaled(&high, m, 0)
}

/// The magnitude nearest to a quotient, found by bisection.
fn round_quotient(n: &Vec<u64>, d: &Vec<u64>) -> (mag: u64)
    requires
        natural(d@) > 0,
    ensures
        mag == rounded(natural(n@), natural(d@)),
        mag <= INFINITY_BITS,
{
    let end: Vec<u64> = shifted(d, 2098);
    if at_most(&end, n) {
        proof {
            lemma_past_all(natural(n@), natural(d@));
        }
        return INFINITY_BITS;
    }
    let mut low: u64 = 0;
    let mut high: u64 = INFINITY_BITS;
    proof {
        lemma2_to64_rest();
        lemma_pow2_adds(52, 2046);
        assert(magnitude_units(0) == 0) by {
            lemma_parts(0);
        }
        assert(scale(INFINITY_BITS as nat) == 2046);
        assert(significand(INFINITY_BITS as nat) == pow2(52));
        assert(natural(d@) * pow2(2098) == pow2(2098) * natural(d@)) by (nonlinear_arith);
        assert(0 * natural(d@) == 0) by (nonlinear_arith);
    }
    while high - low > 1
        invariant
            low < high <= INFINITY_BITS,
            magnitude_units(low as nat) * natural(d@) <= natural(n@),
            natural(n@) < magnitude_units(high as nat) * natural(d@),
        decreases high - low,
    {
        let mid: u64 = low + (high - low) / 2;
        let (m, k): (u64, u64) = parts(mid);
        if at_most(&units_times(d, m, k), n) {
            low = mid;
        } else {
            high = mid;
        }
    }
    let (m, k): (u64, u64) = parts(low);
    proof {
        lemma2_to64_rest();
        lemma_between(natural(n@), natural(d@), low as nat);
        lemma_next_units(low as nat);
        assert(m * pow2(k as nat) + (m + 1) * pow2(k as nat) == (2 * m + 1) * pow2(k as nat))
            by (nonlinear_arith);
    }
    let middle: Vec<u64> = units_times(d, 2 * m + 1, k);
    let twice: Vec<u64> = scaled(n, 2, 0);
    if !at_most(&middle, &twice) {
        low
    } else if !at_most(&twice, &middle) {
        low + 1
    } else {
        low + low % 2
    }
}

/// A number times a power of ten.
fn raised(n: &Vec<u64>, by: u128) -> (r: Vec<u64>)
    ensures
        natural(r@) == natural(n@) * ten(by as nat),
{
    let mut r: Vec<u64> = scaled(n, 1, 0);
    let mut i: u128 = 0;
    proof {
        assert(natural(n@) * ten(0) == natural(n@)) by (nonlinear_arith)
            requires
                ten(0) == 1,
        ;
    }
    while i < by
        invariant
            i <= by,
            natural(r@) == natural(n@) * ten(i as nat),
        decreases by - i,
    {
        r = scaled(&r, 10, 0);
        proof {
            assert((natural(n@) * ten(i as nat)) * 10 == natural(n@) * (10 * ten(i as nat)))
                by (nonlinear_arith);
        }
        i = i + 1;
    }
    r
}

/// The magnitude nearest to `digits * 10^exponent`, where there are `length` digits.
fn round_decimal(digits: &Vec<u64>, length: usize, exponent: i128) -> (mag: u64)
    requires
        natural(digits@) < ten(length as nat),
        -0x4000_0000_0000_0000_0000_0000_0000_0000 <= exponent
            <= 0x4000_0000_0000_0000_0000_0000_0000_0000,
    ensures
        mag == nearest(natural(digits@), exponent as int),
        mag <= INFINITY_BITS,
{
    if exponent + length as i128 <= -400 {
        proof {
            lemma_tiny(natural(digits@), length as nat, exponent as int);
        }
        return 0;
    }
    let one: Vec<u64> = vec![1];
    proof {
        reveal_with_fuel(crate::natural::stacked, 2);
        assert(one@.drop_first() =~= Seq::<u64>::empty());
        assert(natural(one@) == 1);
    }
    if exponent >= 400 {
        if at_most(&one, digits) {
            proof {
                lemma_huge(natural(digits@), exponent as int);
            }
            return INFINITY_BITS;
        }
        proof {
            let power = ten(exponent as nat);
            assert(0 * power * pow2(1074) == 0) by (nonlinear_arith);
            lemma_below_all(0, 1);
        }
        return 0;
    }
    let units: Vec<u64> = shifted(digits, 1074);
    if exponent >= 0 {
        let n: Vec<u64> = raised(&units, exponent as u128);
        proof {
            let (x, power) = (natural(digits@), ten(exponent as nat));
            assert((x * pow2(1074)) * power == x * power * pow2(1074)) by (nonlinear_arith);
        }
        round_quotient(&n, &one)
    } else {
        let d: Vec<u64> = raised(&one, (-exponent) as u128);
        proof {
            lemma_ten_adds((-exponent) as nat, 0);
            assert(1 * ten((-exponent) as nat) == ten((-exponent) as nat)) by (nonlinear_arith);
        }
        round_quotient(&units, &d)
    }
}

pub open spec fn is_digit(c: char) -> bool {
    '0' <= c <= '9'
}

/// How many digits a text begins with.
pub open spec fn leading(s: Seq<char>) -> nat
    decreases s.len(),
{
    if s.len() > 0 && is_digit(s[0]) {
        1 + leading(s.drop_first())
    } else {
        0
    }
}

/// The number that digits stand for.
pub open spec fn number(digits: Seq<char>) -> nat
    decreases digits.len(),
{
    if digits.len() == 0 {
        0
    } else {
        (10 * number(digits.drop_last()) + (digits.last() as nat - '0' as nat)) as nat
    }
}

/// Whether a text begins with a minus sign, and what follows its sign.
pub open spec fn unsigned(s: Seq<char>) -> (bool, Seq<char>) {
    if s.len() > 0 && (s[0] == '+' || s[0] == '-') {
        (s[0] == '-', s.skip(1))
    } else {
        (false, s)
    }
}

/// The exponent at the end of a number: nothing, or an `e` in either case, an optional sign and
/// digits.
pub open spec fn exponent_of(s: Seq<char>) -> Option<int> {
    if s.len() == 0 {
        Some(0)
    } else if s[0] == 'e' || s[0] == 'E' {
        let (negative, digits) = unsigned(s.skip(1));
        if digits.len() == 0 || leading(digits) < digits.len() {
            None
        } else if negative {
            Some(-number(digits))
        } else {
            Some(number(digits) as int)
        }
    } else {
        None
    }
}

/// The digits of a decimal number before its point.
pub open spec fn whole_of(s: Seq<char>) -> Seq<char> {
    s.take(leading(s) as int)
}

/// What follows the digits of a decimal number before its point.
pub open spec fn after_whole(s: Seq<char>) -> Seq<char> {
    s.skip(leading(s) as int)
}

/// Whether a decimal number has a point.
pub open spec fn has_point(s: Seq<char>) -> bool {
    after_whole(s).len() > 0 && after_whole(s)[0] == '.'
}

/// The digits of a decimal number after its point.
pub open spec fn fraction_of(s: Seq<char>) -> Seq<char> {
    if has_point(s) {
        whole_of(after_whole(s).skip(1))
    } else {
        seq![]
    }
}

/// What follows all the digits of a decimal number.
pub open spec fn end_of(s: Seq<char>) -> Seq<char> {
    if has_point(s) {
        after_whole(after_whole(s).skip(1))
    } else {
        after_whole(s)
    }
}

/// A decimal number as its digits and the power of ten that they are scaled by: digits, with or
/// without a point among, before or after them, and an exponent.
pub open spec fn decimal_of(s: Seq<char>) -> Option<(Seq<char>, int)> {
    let digits = whole_of(s) + fraction_of(s);
    match exponent_of(end_of(s)) {
        Some(exponent) => if digits.len() > 0 {
            Some((digits, exponent - fraction_of(s).len()))
        } else {
            None
        },
        None => None,
    }
}

/// Whether a text is a word, in letters of either case.
pub open spec fn spelled(s: Seq<char>, lower: Seq<char>, upper: Seq<char>) -> bool {
    &&& s.len() == lower.len()
    &&& forall|i: int| 0 <= i < s.len() ==> #[trigger] s[i] == lower[i] || s[i] == upper[i]
}

/// The number that a text stands for: an optional sign, then `inf`, `infinity`, `nan` or a
/// decimal number, which gives the nearest binary64 number.
pub open spec fn parsed(s: Seq<char>) -> Option<Double> {
    let (negative, size) = unsigned(s);
    if spelled(size, "inf"@, "INF"@) || spelled(size, "infinity"@, "INFINITY"@) {
        Some(signed(negative, INFINITY_BITS as nat))
    } else if spelled(size, "nan"@, "NAN"@) {
        Some(signed(negative, NAN_BITS as nat))
    } else {
        match decimal_of(size) {
            Some((digits, exponent)) => Some(signed(negative, nearest(number(digits), exponent))),
            None => None,
        }
    }
}

/// The characters of a text.
fn characters(text: &str) -> (r: Vec<char>)
    ensures
        r@ == text@,
{
    let len: usize = text.unicode_len();
    let mut r: Vec<char> = Vec::new();
    let mut i: usize = 0;
    while i < len
        invariant
            i <= len == text@.len(),
            r@ == text@.take(i as int),
        decreases len - i,
    {
        r.push(text.get_char(i));
        assert(r@ =~= text@.take(i + 1));
        i = i + 1;
    }
    assert(text@.take(i as int) =~= text@);
    r
}

/// Whether the characters from `from` on are a word, in letters of either case.
fn is_word(chars: &Vec<char>, from: usize, lower: &str, upper: &str) -> (r: bool)
    requires
        from <= chars@.len(),
        lower@.len() == upper@.len(),
    ensures
        r == spelled(chars@.skip(from as int), lower@, upper@),
{
    let ghost s = chars@.skip(from as int);
    let len: usize = lower.unicode_len();
    if chars.len() - from != len {
        return false;
    }
    let mut i: usize = 0;
    while i < len
        invariant
            i <= len == lower@.len(),
            len == upper@.len(),
            from + len == chars@.len(),
            from + len <= usize::MAX,
            s == chars@.skip(from as int),
            forall|j: int| 0 <= j < i ==> #[trigger] s[j] == lower@[j] || s[j] == upper@[j],
        decreases len - i,
    {
        let c: char = chars[from + i];
        assert(c == s[i as int]);
        if c != lower.get_char(i) && c != upper.get_char(i) {
            return false;
        }
        i = i + 1;
    }
    true
}

pub proof fn lemma_leading(s: Seq<char>)
    ensures
        leading(s) <= s.len(),
        forall|i: int| 0 <= i < leading(s) ==> is_digit(#[trigger] s[i]),
    decreases s.len(),
{
    if s.len() > 0 && is_digit(s[0]) {
        let rest = s.drop_first();
        lemma_leading(rest);
        assert forall|i: int| 0 <= i < leading(s) implies is_digit(#[trigger] s[i]) by {
            if i > 0 {
                assert(s[i] == rest[i - 1]);
            }
        }
    }
}

/// Where the digits from `from` on end.
fn digits_end(chars: &Vec<char>, from: usize) -> (end: usize)
    requires
        from <= chars@.len(),
    ensures
        from <= end <= chars@.len(),
        end - from == leading(chars@.skip(from as int)),
{
    let mut end: usize = from;
    while end < chars.len() && '0' <= chars[end] && chars[end] <= '9'
        invariant
            from <= end <= chars@.len(),
            leading(chars@.skip(from as int)) == end - from + leading(chars@.skip(end as int)),
        decreases chars@.len() - end,
    {
        assert(chars@.skip(end as int).drop_first() =~= chars@.skip(end + 1));
        end = end + 1;
    }
    end
}

/// Appends the characters from `from` to `end` to the digits of a number.
fn read_digits(
    start: Vec<u64>,
    chars: &Vec<char>,
    from: usize,
    end: usize,
    Ghost(before): Ghost<Seq<char>>,
) -> (r: Vec<u64>)
    requires
        from <= end <= chars@.len(),
        forall|i: int| from <= i < end ==> is_digit(#[trigger] chars@[i]),
        natural(start@) == number(before),
    ensures
        natural(r@) == number(before + chars@.subrange(from as int, end as int)),
{
    let mut r: Vec<u64> = start;
    let mut i: usize = from;
    assert(before + chars@.subrange(from as int, from as int) =~= before);
    while i < end
        invariant
            from <= i <= end <= chars@.len(),
            forall|j: int| from <= j < end ==> is_digit(#[trigger] chars@[j]),
            natural(r@) == number(before + chars@.subrange(from as int, i as int)),
        decreases end - i,
    {
        let c: char = chars[i];
        assert(is_digit(chars@[i as int]));
        let value: u32 = c as u32 - '0' as u32;
        r = scaled(&r, 10, value as u64);
        proof {
            let old_text = before + chars@.subrange(from as int, i as int);
            let new_text = before + chars@.subrange(from as int, i + 1);
            assert(new_text =~= old_text.push(c));
            assert(new_text.drop_last() =~= old_text);
        }
        i = i + 1;
    }
    r
}

/// A bound that no sum of a text's length and an exponent within range comes near.
const EXPONENT_LIMIT: i128 = 0x1000_0000_0000_0000_0000_0000_0000;

/// Reads digits as a number, up to a limit.
fn read_limited(chars: &Vec<char>, from: usize) -> (r: i128)
    requires
        from <= chars@.len(),
        leading(chars@.skip(from as int)) == chars@.len() - from,
    ensures
        r == (if number(chars@.skip(from as int)) < EXPONENT_LIMIT {
            number(chars@.skip(from as int)) as int
        } else {
            EXPONENT_LIMIT as int
        }),
{
    let ghost s = chars@.skip(from as int);
    let mut r: i128 = 0;
    let mut i: usize = from;
    proof {
        lemma_leading(s);
        assert(s.take(0) =~= Seq::<char>::empty());
    }
    while i < chars.len()
        invariant
            from <= i <= chars@.len(),
            s == chars@.skip(from as int),
            forall|j: int| 0 <= j < s.len() ==> is_digit(#[trigger] s[j]),
            r == (if number(s.take(i - from)) < EXPONENT_LIMIT {
                number(s.take(i - from)) as int
            } else {
                EXPONENT_LIMIT as int
            }),
        decreases chars@.len() - i,
    {
        let c: char = chars[i];
        proof {
            assert(c == s[i - from]);
            assert(is_digit(s[i - from]));
            assert(s.take(i + 1 - from).drop_last() =~= s.take(i - from));
            assert(s.take(i + 1 - from).last() == c);
        }
        let value: u32 = c as u32 - '0' as u32;
        r = 10 * r + value as i128;
        if r >= EXPONENT_LIMIT {
            r = EXPONENT_LIMIT;
        }
        i = i + 1;
    }
    assert(s.take(i - from) =~= s);
    r
}

/// Reads a sign: whether it is a minus sign, and where what follows it begins.
fn read_sign(chars: &Vec<char>, from: usize) -> (r: (bool, usize))
    requires
        from <= chars@.len(),
    ensures
        from <= r.1 <= chars@.len(),
        unsigned(chars@.skip(from as int)) == (r.0, chars@.skip(r.1 as int)),
{
    let ghost s = chars@.skip(from as int);
    if from < chars.len() && (chars[from] == '+' || chars[from] == '-') {
        assert(s.skip(1) =~= chars@.skip(from + 1));
        (chars[from] == '-', from + 1)
    } else {
        (false, from)
    }
}

/// Whether an exponent stands in for another one: it is the same, or both lie past the limit.
spec fn stands_in(r: int, exponent: int) -> bool {
    ||| r == exponent
    ||| r == EXPONENT_LIMIT && exponent >= EXPONENT_LIMIT
    ||| r == -EXPONENT_LIMIT && exponent <= -EXPONENT_LIMIT
}

/// Reads the exponent at the end of a number, up to a limit.
fn read_exponent(chars: &Vec<char>, from: usize) -> (r: Option<i128>)
    requires
        from <= chars@.len(),
    ensures
        r is Some <==> exponent_of(chars@.skip(from as int)) is Some,
        r matches Some(x) ==> -EXPONENT_LIMIT <= x <= EXPONENT_LIMIT && stands_in(
            x as int,
            exponent_of(chars@.skip(from as int))->0,
        ),
{
    let ghost s = chars@.skip(from as int);
    if from == chars.len() {
        return Some(0);
    }
    if chars[from] != 'e' && chars[from] != 'E' {
        return None;
    }
    assert(s.skip(1) =~= chars@.skip(from + 1));
    let (negative, first): (bool, usize) = read_sign(chars, from + 1);
    let end: usize = digits_end(chars, first);
    if first == chars.len() || end < chars.len() {
        return None;
    }
    let size: i128 = read_limited(chars, first);
    if negative {
        Some(-size)
    } else {
        Some(size)
    }
}

proof fn lemma_number_bound(digits: Seq<char>)
    requires
        forall|i: int| 0 <= i < digits.len() ==> is_digit(#[trigger] digits[i]),
    ensures
        number(digits) < ten(digits.len()),
    decreases digits.len(),
{
    if digits.len() > 0 {
        assert(is_digit(digits[digits.len() - 1]));
        assert forall|i: int| 0 <= i < digits.drop_last().len() implies is_digit(
            #[trigger] digits.drop_last()[i],
        ) by {
            assert(digits.drop_last()[i] == digits[i]);
        }
        lemma_number_bound(digits.drop_last());
    }
}

/// Finds the digits of a decimal number from `from` on: where those before its point end, and
/// where those after it begin and end.
fn find_digits(chars: &Vec<char>, from: usize) -> (r: (usize, usize, usize))
    requires
        from <= chars@.len(),
    ensures
        from <= r.0 <= r.1 <= r.2 <= chars@.len(),
        whole_of(chars@.skip(from as int)) == chars@.subrange(from as int, r.0 as int),
        fraction_of(chars@.skip(from as int)) == chars@.subrange(r.1 as int, r.2 as int),
        end_of(chars@.skip(from as int)) == chars@.skip(r.2 as int),
        forall|i: int| from <= i < r.0 || r.1 <= i < r.2 ==> is_digit(#[trigger] chars@[i]),
{
    let ghost s = chars@.skip(from as int);
    let whole_end: usize = digits_end(chars, from);
    proof {
        lemma_leading(s);
        assert(after_whole(s) =~= chars@.skip(whole_end as int));
        assert(whole_of(s) =~= chars@.subrange(from as int, whole_end as int));
        assert forall|i: int| from <= i < whole_end implies is_digit(#[trigger] chars@[i]) by {
            assert(chars@[i] == s[i - from]);
        }
    }
    if whole_end < chars.len() && chars[whole_end] == '.' {
        let first: usize = whole_end + 1;
        let end: usize = digits_end(chars, first);
        proof {
            let rest = after_whole(s).skip(1);
            lemma_leading(rest);
            assert(rest =~= chars@.skip(first as int));
            assert(whole_of(rest) =~= chars@.subrange(first as int, end as int));
            assert(after_whole(rest) =~= chars@.skip(end as int));
            assert forall|i: int| first <= i < end implies is_digit(#[trigger] chars@[i]) by {
                assert(chars@[i] == rest[i - first]);
            }
        }
        (whole_end, first, end)
    } else {
        assert(chars@.subrange(whole_end as int, whole_end as int) =~= Seq::<char>::empty());
        (whole_end, whole_end, whole_end)
    }
}

/// Reads a decimal number, from `from` to the end.
fn read_decimal(chars: &Vec<char>, from: usize) -> (r: Option<u64>)
    requires
        from <= chars@.len(),
    ensures
        r is Some <==> decimal_of(chars@.skip(from as int)) is Some,
        r matches Some(mag) ==> mag <= INFINITY_BITS && mag == ({
            let (digits, exponent) = decimal_of(chars@.skip(from as int))->0;
            nearest(number(digits), exponent)
        }),
{
    let (whole_end, first, end): (usize, usize, usize) = find_digits(chars, from);
    let ghost whole = chars@.subrange(from as int, whole_end as int);
    let ghost fraction = chars@.subrange(first as int, end as int);
    let exponent: i128 = match read_exponent(chars, end) {
        Some(exponent) => exponent,
        None => {
            return None;
        },
    };
    if from == whole_end && first == end {
        return None;
    }
    assert(Seq::<char>::empty() + whole =~= whole);
    let zero: Vec<u64> = Vec::new();
    let upper: Vec<u64> = read_digits(zero, chars, from, whole_end, Ghost(Seq::empty()));
    let digits: Vec<u64> = read_digits(upper, chars, first, end, Ghost(whole));
    let length: usize = (whole_end - from) + (end - first);
    let fraction_len: usize = end - first;
    let shift: i128 = exponent - fraction_len as i128;
    proof {
        let all = whole + fraction;
        assert forall|i: int| 0 <= i < all.len() implies is_digit(#[trigger] all[i]) by {
            if i < whole.len() {
                assert(all[i] == chars@[from + i]);
            } else {
                assert(all[i] == chars@[first + (i - whole.len())]);
            }
        }
        lemma_number_bound(all);
        lemma_past_limit(
            number(all),
            all.len(),
            exponent as int,
            exponent_of(chars@.skip(end as int))->0,
            fraction.len(),
        );
    }
    Some(round_decimal(&digits, length, shift))
}

/// Past the limit an exponent makes no difference.
proof fn lemma_past_limit(digits: nat, length: nat, r: int, exponent: int, fraction: nat)
    requires
        digits < ten(length),
        fraction <= length <= usize::MAX,
        stands_in(r, exponent),
    ensures
        nearest(digits, r - fraction) == nearest(digits, exponent - fraction),
{
    if r == EXPONENT_LIMIT && exponent >= EXPONENT_LIMIT {
        if digits > 0 {
            lemma_huge(digits, r - fraction);
            lemma_huge(digits, exponent - fraction);
        } else {
            let low = ten((r - fraction) as nat);
            let high = ten((exponent - fraction) as nat);
            assert(0 * low * pow2(1074) == 0 && 0 * high * pow2(1074) == 0) by (nonlinear_arith);
        }
    } else if r == -EXPONENT_LIMIT && exponent <= -EXPONENT_LIMIT {
        lemma_tiny(digits, length, r - fraction);
        lemma_tiny(digits, length, exponent - fraction);
    }
}

impl Double {
    /// Reads a number from a text.
    pub fn parse(text: &str) -> (r: Option<Double>)
        ensures
            r == parsed(text@),
    {
        let chars: Vec<char> = characters(text);
        let (negative, from): (bool, usize) = read_sign(&chars, 0);
        proof {
            assert(chars@.skip(0) =~= text@);
            reveal_strlit("inf");
            reveal_strlit("INF");
            reveal_strlit("infinity");
            reveal_strlit("INFINITY");
            reveal_strlit("nan");
            reveal_strlit("NAN");
        }
        if is_word(&chars, from, "inf", "INF") || is_word(&chars, from, "infinity", "INFINITY") {
            return Some(Double::join(negative, INFINITY_BITS));
        }
        if is_word(&chars, from, "nan", "NAN") {
            return Some(Double::join(negative, NAN_BITS));
        }
        match read_decimal(&chars, from) {
            Some(mag) => Some(Double::join(negative, mag)),
            None => None,
        }
    }
}

/// Whether `n / d` units are nearer to the value of a magnitude than to that of any other one, or
/// as near and the magnitude even. Infinity counts as the first power of two past all finite
/// numbers.
pub open spec fn is_nearest_magnitude(n: nat, d: nat, mag: nat) -> bool {
    forall|other: nat|
        other <= INFINITY_BITS && other != mag ==> {
            let near = abs(n - magnitude_units(mag) * d);
            let far = abs(n - #[trigger] magnitude_units(other) * d);
            near < far || near == far && mag % 2 == 0
        }
}

/// Whether a text is a decimal number of the sign of `x`, and nearer to it than to any other
/// number, or as near and `x` even.
pub open spec fn writes(s: Seq<char>, x: Double) -> bool {
    &&& unsigned(s).0 == x.negative()
    &&& decimal_of(unsigned(s).1) matches Some((digits, exponent)) && is_nearest_magnitude(
        parts_of(number(digits), exponent),
        parts_per_unit(exponent),
        x.magnitude(),
    )
}

/// What rounds to infinity is as near to the first power of two past all finite numbers as to any
/// of them.
pub proof fn lemma_infinity_is_nearest(n: nat, d: nat, mag: nat)
    requires
        d > 0,
        mag < INFINITY_BITS,
        rounded(n, d) == INFINITY_BITS,
    ensures
        abs(n - magnitude_units(INFINITY_BITS as nat) * d) <= abs(n - magnitude_units(mag) * d),
{
    let last = (INFINITY_BITS - 1) as nat;
    let (u, v, w) = (
        magnitude_units(mag),
        magnitude_units(last),
        magnitude_units(INFINITY_BITS as nat),
    );
    lemma_units_increase(last, INFINITY_BITS as nat);
    if mag < last {
        lemma_units_increase(mag, last);
    }
    assert(u * d <= v * d <= w * d) by (nonlinear_arith)
        requires
            u <= v <= w,
    ;
    if n < v * d {
        law_rounding_stays_below(n, d, last);
    } else if n < w * d {
        lemma_between(n, d, last);
        assert((v + w) * d == v * d + w * d) by (nonlinear_arith);
    }
}

/// Of two magnitudes at the same distance that no other one comes nearer to, rounding gives the
/// even one.
pub proof fn lemma_tie(n: nat, d: nat, low: nat, high: nat)
    requires
        d > 0,
        low < high <= INFINITY_BITS,
        abs(n - magnitude_units(low) * d) == abs(n - magnitude_units(high) * d),
        forall|other: nat|
            other <= INFINITY_BITS ==> abs(n - magnitude_units(low) * d) <= abs(
                n - #[trigger] magnitude_units(other) * d,
            ),
    ensures
        high == low + 1,
        rounded(n, d) == low + low % 2,
{
    let (u, w) = (magnitude_units(low), magnitude_units(high));
    lemma_units_increase(low, high);
    assert(u * d < w * d) by (nonlinear_arith)
        requires
            u < w,
            d > 0,
    ;
    if high > low + 1 {
        let v = magnitude_units(low + 1);
        lemma_units_increase(low, low + 1);
        lemma_units_increase(low + 1, high);
        assert(u * d < v * d < w * d) by (nonlinear_arith)
            requires
                u < v < w,
                d > 0,
        ;
        assert(abs(n - u * d) <= abs(n - v * d));
    }
    assert((u + w) * d == u * d + w * d) by (nonlinear_arith);
    lemma_between(n, d, low);
}

/// A quotient rounds to the magnitude that it is nearest to.
proof fn lemma_nearest_is_rounded(n: nat, d: nat, mag: nat)
    requires
        d > 0,
        mag < INFINITY_BITS,
        is_nearest_magnitude(n, d, mag),
    ensures
        rounded(n, d) == mag,
{
    let r = rounded(n, d);
    if r != mag {
        if r < INFINITY_BITS {
            law_rounding_is_nearest(n, d, mag);
        } else {
            lemma_infinity_is_nearest(n, d, mag);
        }
        let near = abs(n - magnitude_units(mag) * d);
        assert(near == abs(n - magnitude_units(r) * d) && mag % 2 == 0);
        assert forall|other: nat| other <= INFINITY_BITS implies near <= abs(
            n - #[trigger] magnitude_units(other) * d,
        ) by {}
        if r < mag {
            lemma_tie(n, d, r, mag);
        } else {
            lemma_tie(n, d, mag, r);
        }
    }
}

/// A decimal number does not begin with a letter.
pub proof fn lemma_decimal_is_no_word(s: Seq<char>, lower: Seq<char>, upper: Seq<char>)
    requires
        decimal_of(s) is Some,
        lower.len() > 0,
        !is_digit(lower[0]) && lower[0] != '.',
        !is_digit(upper[0]) && upper[0] != '.',
    ensures
        !spelled(s, lower, upper),
{
    if spelled(s, lower, upper) {
        assert(s[0] == lower[0] || s[0] == upper[0]);
        assert(leading(s) == 0);
        assert(after_whole(s) =~= s);
        assert(whole_of(s) + fraction_of(s) =~= Seq::<char>::empty());
    }
}

/// A text that is nearer to a finite number than to any other one, or as near and the number even,
/// reads back as that number.
pub proof fn law_nearest_text_reads_back(s: Seq<char>, x: Double)
    requires
        x.is_finite(),
        writes(s, x),
    ensures
        parsed(s) == Some(x),
{
    let (negative, size) = unsigned(s);
    let (digits, exponent) = decimal_of(size)->0;
    reveal_strlit("inf");
    reveal_strlit("INF");
    reveal_strlit("infinity");
    reveal_strlit("INFINITY");
    reveal_strlit("nan");
    reveal_strlit("NAN");
    lemma_decimal_is_no_word(size, "inf"@, "INF"@);
    lemma_decimal_is_no_word(size, "infinity"@, "INFINITY"@);
    lemma_decimal_is_no_word(size, "nan"@, "NAN"@);
    if exponent < 0 {
        lemma_ten_adds((-exponent) as nat, 0);
    }
    lemma_nearest_is_rounded(
        parts_of(number(digits), exponent),
        parts_per_unit(exponent),
        x.magnitude(),
    );
    assert(signed(x.negative(), x.magnitude()) == x);
}

/// Five to the power of `k`.
pub open spec fn five(k: nat) -> nat
    decreases k,
{
    if k == 0 {
        1
    } else {
        5 * five((k - 1) as nat)
    }
}

/// A finite number written out exactly: its sign, a whole number, and the exponent that scales it.
pub open spec fn exact_text(x: Double) -> Seq<char> {
    (if x.negative() {
        seq!['-']
    } else {
        seq![]
    }) + decimal(magnitude_units(x.magnitude()) * five(1074)) + "e-1074"@
}

proof fn lemma_ten_is_two_times_five(k: nat)
    ensures
        ten(k) == pow2(k) * five(k),
        five(k) > 0,
    decreases k,
{
    lemma2_to64();
    if k > 0 {
        let j = (k - 1) as nat;
        lemma_ten_is_two_times_five(j);
        lemma_pow2_unfold(k);
        assert(10 * (pow2(j) * five(j)) == (2 * pow2(j)) * (5 * five(j))) by (nonlinear_arith);
    } else {
        assert(pow2(0) * five(0) == 1) by (nonlinear_arith)
            requires
                pow2(0) == 1,
                five(0) == 1,
        ;
    }
}

/// Decimal notation stands for the number that it is the notation of.
pub proof fn lemma_number_of_decimal(n: nat)
    ensures
        number(decimal(n)) == n,
    decreases n,
{
    reveal_with_fuel(number, 2);
    if n >= 10 {
        lemma_number_of_decimal(n / 10);
        assert(decimal(n).drop_last() =~= decimal(n / 10));
    } else {
        assert(decimal(n).drop_last() =~= Seq::<char>::empty());
    }
}

/// Digits in front of a text that begins with none.
pub proof fn lemma_leading_digits(digits: Seq<char>, rest: Seq<char>)
    requires
        forall|i: int| 0 <= i < digits.len() ==> is_digit(#[trigger] digits[i]),
        rest.len() > 0,
        !is_digit(rest[0]),
    ensures
        leading(digits + rest) == digits.len(),
    decreases digits.len(),
{
    let s = digits + rest;
    if digits.len() > 0 {
        let tail = digits.drop_first();
        assert(is_digit(digits[0]));
        assert(s.drop_first() =~= tail + rest);
        assert forall|i: int| 0 <= i < tail.len() implies is_digit(#[trigger] tail[i]) by {
            assert(tail[i] == digits[i + 1]);
        }
        lemma_leading_digits(tail, rest);
    } else {
        assert(s =~= rest);
    }
}

proof fn lemma_exact_exponent()
    ensures
        exponent_of("e-1074"@) == Some(-1074int),
        "e-1074"@.len() == 6,
        "e-1074"@[0] == 'e',
{
    reveal_strlit("e-1074");
    let s = "e-1074"@;
    let digits = seq!['1', '0', '7', '4'];
    assert(s.skip(1).skip(1) =~= digits);
    assert(unsigned(s.skip(1)) == (true, digits));
    reveal_with_fuel(leading, 5);
    reveal_with_fuel(number, 5);
    assert(digits.drop_first() =~= seq!['0', '7', '4']);
    assert(digits.drop_first().drop_first() =~= seq!['7', '4']);
    assert(digits.drop_first().drop_first().drop_first() =~= seq!['4']);
    assert(leading(digits) == 4);
    assert(digits.drop_last() =~= seq!['1', '0', '7']);
    assert(digits.drop_last().drop_last() =~= seq!['1', '0']);
    assert(digits.drop_last().drop_last().drop_last() =~= seq!['1']);
    assert(number(digits) == 1074);
}

/// Every finite number can be written: its exact text is nearest to it, so it reads back as the
/// number.
pub proof fn law_exact_text_reads_back(x: Double)
    requires
        x.is_finite(),
    ensures
        writes(exact_text(x), x),
        parsed(exact_text(x)) == Some(x),
{
    let units = magnitude_units(x.magnitude());
    let value = units * five(1074);
    let digits = decimal(value);
    let end = "e-1074"@;
    let size = digits + end;
    let s = exact_text(x);
    lemma_decimal_digits(value);
    lemma_number_of_decimal(value);
    lemma_exact_exponent();
    assert forall|i: int| 0 <= i < digits.len() implies is_digit(#[trigger] digits[i]) by {}
    lemma_leading_digits(digits, end);
    assert(unsigned(s) == (x.negative(), size)) by {
        if x.negative() {
            assert(s.skip(1) =~= size);
        } else {
            assert(s =~= size);
            assert(is_digit(s[0])) by {
                assert(s[0] == digits[0]);
            }
        }
    }
    assert(whole_of(size) =~= digits);
    assert(after_whole(size) =~= end);
    assert(whole_of(size) + fraction_of(size) =~= digits);
    assert(decimal_of(size) == Some((digits, -1074int)));
    let n = parts_of(value, -1074);
    let d = parts_per_unit(-1074);
    lemma_ten_is_two_times_five(1074);
    lemma_pow2_pos(1074);
    assert(n == units * d) by (nonlinear_arith)
        requires
            n == (units * five(1074)) * pow2(1074),
            d == pow2(1074) * five(1074),
    ;
    assert(d > 0) by (nonlinear_arith)
        requires
            d == pow2(1074) * five(1074),
            pow2(1074) > 0,
            five(1074) > 0,
    ;
    assert forall|other: nat| other <= INFINITY_BITS && other != x.magnitude() implies {
        let near = abs(n - units * d);
        let far = abs(n - #[trigger] magnitude_units(other) * d);
        near < far || near == far && x.magnitude() % 2 == 0
    } by {
        let v = magnitude_units(other);
        if other < x.magnitude() {
            lemma_units_increase(other, x.magnitude());
        } else {
            lemma_units_increase(x.magnitude(), other);
        }
        assert(v * d != units * d) by (nonlinear_arith)
            requires
                v != units,
                d > 0,
        ;
    }
    law_nearest_text_reads_back(s, x);
}

} // verus!
