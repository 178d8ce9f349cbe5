//! What is read from texts, form by form, and what the texts of numbers say.

use crate::double::exact::lemma_signed_rounds;
use crate::double::exact::rounds_to;
use crate::double::fixed::hundredths;
use crate::double::model::{magnitude_units, rounded, INFINITY_BITS};
use crate::double::parse::{after_whole, decimal_of, end_of, exponent_of, fraction_of, has_point};
use crate::double::parse::{is_digit, leading, lemma_decimal_is_no_word, lemma_leading};
use crate::double::parse::{lemma_leading_digits, lemma_number_of_decimal, lemma_ten_adds, nearest};
use crate::double::parse::{number, parsed, parts_of, parts_per_unit, spelled, ten, unsigned};
use crate::double::parse::whole_of;
use crate::double::rounding::lemma_half_even_is_nearest;
use crate::double::{abs, signed, Double};
use crate::text::{decimal, digit, lemma_decimal_digits, two_digits};
use vstd::arithmetic::power::pow;
use vstd::arithmetic::power2::*;
use vstd::prelude::*;

verus! {

/// Powers of ten.
pub proof fn law_powers_of_ten(k: nat)
    ensures
        ten(k) == pow(10, k),
    decreases k,
{
    reveal(pow);
    if k > 0 {
        law_powers_of_ten((k - 1) as nat);
    }
}

/// Digits have their place value: those of a longer text count as many powers of ten more as
/// digits follow them.
pub proof fn law_digits_have_place_value(a: Seq<char>, b: Seq<char>)
    requires
        forall|i: int| 0 <= i < b.len() ==> is_digit(#[trigger] b[i]),
    ensures
        number(a + b) == number(a) * ten(b.len()) + number(b),
    decreases b.len(),
{
    if b.len() == 0 {
        assert(a + b =~= a);
        assert(number(a) * 1 == number(a)) by (nonlinear_arith);
    } else {
        let init = b.drop_last();
        assert((a + b).drop_last() =~= a + init);
        assert forall|i: int| 0 <= i < init.len() implies is_digit(#[trigger] init[i]) by {
            assert(init[i] == b[i]);
        }
        assert(is_digit(b[b.len() - 1]));
        law_digits_have_place_value(a, init);
        let (x, p) = (number(a), ten(init.len()));
        assert(10 * (x * p) == x * (10 * p)) by (nonlinear_arith);
    }
}

/// A single digit stands for its own number.
pub proof fn law_a_digit_is_its_number(c: char)
    requires
        is_digit(c),
    ensures
        number(seq![c]) == c as int - '0' as int,
        number(seq![]) == 0,
        '0' <= c <= '9',
{
    reveal_with_fuel(number, 2);
    assert(seq![c].drop_last() =~= Seq::<char>::empty());
}

/// Decimal notation consists of digits, without leading zeros, and stands for the number that it
/// is the notation of.
pub proof fn law_decimal_notation(n: nat)
    ensures
        number(decimal(n)) == n,
        decimal(n).len() > 0,
        forall|i: int| 0 <= i < decimal(n).len() ==> is_digit(#[trigger] decimal(n)[i]),
        n > 0 ==> decimal(n)[0] != '0',
        n == 0 ==> decimal(n) == seq!['0'],
    decreases n,
{
    lemma_number_of_decimal(n);
    lemma_decimal_digits(n);
    if n >= 10 {
        law_decimal_notation(n / 10);
    } else {
        assert(decimal(n) =~= seq![digit(n)]);
    }
}

/// Whether a text consists of digits.
pub open spec fn all_digits(s: Seq<char>) -> bool {
    forall|i: int| 0 <= i < s.len() ==> '0' <= #[trigger] s[i] <= '9'
}

/// The digits of a decimal number, with or without a point.
pub open spec fn written(whole: Seq<char>, point: bool, fraction: Seq<char>) -> Seq<char> {
    if point {
        whole + seq!['.'] + fraction
    } else {
        whole
    }
}

/// Whether `x` is the number nearest to `digits * 10^exponent`.
pub open spec fn reads(x: Double, digits: Seq<char>, exponent: int) -> bool {
    if exponent >= 0 {
        rounds_to(x, (number(digits) * ten(exponent as nat) * pow2(1074)) as int, 1)
    } else {
        rounds_to(x, (number(digits) * pow2(1074)) as int, ten((-exponent) as nat) as int)
    }
}

/// Splits a decimal number where its digits end.
proof fn lemma_split(whole: Seq<char>, point: bool, fraction: Seq<char>, end: Seq<char>)
    requires
        all_digits(whole),
        all_digits(fraction),
        !point ==> fraction.len() == 0,
        end.len() > 0 ==> !is_digit(end[0]) && end[0] != '.',
    ensures
        ({
            let s = written(whole, point, fraction) + end;
            &&& whole_of(s) == whole
            &&& fraction_of(s) == fraction
            &&& end_of(s) == end
        }),
{
    let s = written(whole, point, fraction) + end;
    if point {
        let rest = seq!['.'] + fraction + end;
        assert(s =~= whole + rest);
        lemma_leading_of(whole, rest);
        assert(whole_of(s) =~= whole);
        assert(after_whole(s) =~= rest);
        let tail = rest.skip(1);
        assert(tail =~= fraction + end);
        lemma_leading_of(fraction, end);
        assert(whole_of(tail) =~= fraction);
        assert(after_whole(tail) =~= end);
    } else {
        lemma_leading_of(whole, end);
        assert(whole_of(s) =~= whole);
        assert(after_whole(s) =~= end);
        assert(fraction =~= Seq::<char>::empty());
    }
}

/// How many digits a text of digits and something else begins with.
proof fn lemma_leading_of(digits: Seq<char>, rest: Seq<char>)
    requires
        all_digits(digits),
        rest.len() > 0 ==> !is_digit(rest[0]),
    ensures
        leading(digits + rest) == digits.len(),
    decreases digits.len(),
{
    if rest.len() > 0 {
        assert forall|i: int| 0 <= i < digits.len() implies is_digit(#[trigger] digits[i]) by {}
        lemma_leading_digits(digits, rest);
    } else {
        assert(digits + rest =~= digits);
        if digits.len() > 0 {
            assert(is_digit(digits[0]));
            let tail = digits.drop_first();
            assert forall|i: int| 0 <= i < tail.len() implies '0' <= #[trigger] tail[i] <= '9' by {
                assert(tail[i] == digits[i + 1]);
            }
            lemma_leading_of(tail, rest);
            assert(tail + rest =~= tail);
        }
    }
}

/// What is read of a text without a sign that is a decimal number.
proof fn lemma_reads(s: Seq<char>, digits: Seq<char>, exponent: int)
    requires
        s.len() > 0,
        s[0] != '+' && s[0] != '-',
        decimal_of(s) == Some((digits, exponent)),
    ensures
        parsed(s) matches Some(x) && reads(x, digits, exponent) && !x.negative(),
{
    reveal_strlit("inf");
    reveal_strlit("INF");
    reveal_strlit("infinity");
    reveal_strlit("INFINITY");
    reveal_strlit("nan");
    reveal_strlit("NAN");
    lemma_decimal_is_no_word(s, "inf"@, "INF"@);
    lemma_decimal_is_no_word(s, "infinity"@, "INFINITY"@);
    lemma_decimal_is_no_word(s, "nan"@, "NAN"@);
    assert(unsigned(s) == (false, s));
    let n = parts_of(number(digits), exponent);
    let d = parts_per_unit(exponent);
    if exponent < 0 {
        lemma_ten_adds((-exponent) as nat, 0);
    }
    lemma_signed_rounds(false, n as int, d);
    lemma_magnitude_bound(n, d);
}

proof fn lemma_magnitude_bound(n: nat, d: nat)
    ensures
        rounded(n, d) <= INFINITY_BITS,
        !signed(false, rounded(n, d)).negative(),
{
}

/// Digits, with or without a point among, before or after them, are read as the number nearest to
/// what they stand for.
pub proof fn law_digits_are_read(whole: Seq<char>, point: bool, fraction: Seq<char>)
    requires
        all_digits(whole),
        all_digits(fraction),
        !point ==> fraction.len() == 0,
        whole.len() + fraction.len() > 0,
    ensures
        parsed(written(whole, point, fraction)) matches Some(x) && reads(
            x,
            whole + fraction,
            -fraction.len(),
        ) && !x.negative(),
{
    let s = written(whole, point, fraction);
    assert(s + Seq::<char>::empty() =~= s);
    lemma_split(whole, point, fraction, seq![]);
    assert(s[0] != '+' && s[0] != '-') by {
        if whole.len() > 0 {
            assert(s[0] == whole[0]);
        } else {
            assert(s[0] == '.');
        }
    }
    lemma_reads(s, whole + fraction, -fraction.len());
}

/// An exponent, marked by an `e` of either case, scales the digits by a power of ten; it may have
/// a sign.
pub proof fn law_exponents_are_read(
    whole: Seq<char>,
    point: bool,
    fraction: Seq<char>,
    capital: bool,
    sign: Seq<char>,
    power: Seq<char>,
)
    requires
        all_digits(whole),
        all_digits(fraction),
        all_digits(power),
        !point ==> fraction.len() == 0,
        whole.len() + fraction.len() > 0,
        power.len() > 0,
        sign == seq!['-'] || sign == seq!['+'] || sign.len() == 0,
    ensures
        ({
            let mark = if capital {
                seq!['E']
            } else {
                seq!['e']
            };
            let scale = if sign == seq!['-'] {
                -number(power)
            } else {
                number(power) as int
            };
            parsed(written(whole, point, fraction) + (mark + sign + power)) matches Some(x)
                && reads(x, whole + fraction, scale - fraction.len()) && !x.negative()
        }),
{
    let mark = if capital {
        seq!['E']
    } else {
        seq!['e']
    };
    let end = mark + sign + power;
    let s = written(whole, point, fraction) + end;
    lemma_split(whole, point, fraction, end);
    let rest = end.skip(1);
    assert(rest =~= sign + power);
    if sign.len() == 0 {
        assert(rest =~= power);
        assert('0' <= power[0] <= '9');
        assert(unsigned(rest) == (false, power));
    } else {
        assert(rest.skip(1) =~= power);
        assert(unsigned(rest) == (sign == seq!['-'], power)) by {
            assert(rest[0] == sign[0]);
            assert(seq!['-'][0] == '-' && seq!['+'][0] == '+');
        }
    }
    assert(power + Seq::<char>::empty() =~= power);
    lemma_leading_of(power, seq![]);
    let scale = if sign == seq!['-'] {
        -number(power)
    } else {
        number(power) as int
    };
    assert(exponent_of(end) == Some(scale));
    assert(s[0] != '+' && s[0] != '-') by {
        if whole.len() > 0 {
            assert(s[0] == whole[0]);
        } else {
            assert(s[0] == '.');
        }
    }
    lemma_reads(s, whole + fraction, scale - fraction.len());
}

/// A minus sign gives the opposite number, and a plus sign makes no difference.
pub proof fn law_signs_are_read(s: Seq<char>)
    requires
        s.len() > 0 ==> s[0] != '+' && s[0] != '-',
    ensures
        parsed(seq!['+'] + s) == parsed(s),
        parsed(seq!['-'] + s) is Some <==> parsed(s) is Some,
        parsed(s) matches Some(x) ==> parsed(seq!['-'] + s) == Some(x.negated()),
{
    let (plus, minus) = (seq!['+'] + s, seq!['-'] + s);
    assert(plus.skip(1) =~= s && minus.skip(1) =~= s);
    assert(plus[0] == '+' && minus[0] == '-');
    assert(unsigned(s) == (false, s));
    match decimal_of(s) {
        Some((digits, exponent)) => {
            lemma_magnitude_bound(
                parts_of(number(digits), exponent),
                parts_per_unit(exponent),
            );
        },
        None => {},
    }
}

/// Whether a character is one of two letters.
pub open spec fn either(c: char, lower: char, upper: char) -> bool {
    c == lower || c == upper
}

/// Whether a text is one of the three words, in letters of either case.
pub open spec fn word(s: Seq<char>) -> bool {
    ||| s.len() == 3 && either(s[0], 'i', 'I') && either(s[1], 'n', 'N') && either(s[2], 'f', 'F')
    ||| s.len() == 3 && either(s[0], 'n', 'N') && either(s[1], 'a', 'A') && either(s[2], 'n', 'N')
    ||| s.len() == 8 && either(s[0], 'i', 'I') && either(s[1], 'n', 'N') && either(
        s[2],
        'f',
        'F',
    ) && either(s[3], 'i', 'I') && either(s[4], 'n', 'N') && either(s[5], 'i', 'I') && either(
        s[6],
        't',
        'T',
    ) && either(s[7], 'y', 'Y')
}

/// The words for infinity and for what is no number are read as such.
pub proof fn law_words_are_read(s: Seq<char>)
    requires
        word(s),
    ensures
        s[1] == 'n' || s[1] == 'N' ==> parsed(s) == Some(Double { bits: 0x7ff0_0000_0000_0000 }),
        s[1] == 'a' || s[1] == 'A' ==> (parsed(s) matches Some(x) && x.is_nan()),
{
    reveal_strlit("inf");
    reveal_strlit("INF");
    reveal_strlit("infinity");
    reveal_strlit("INFINITY");
    reveal_strlit("nan");
    reveal_strlit("NAN");
    assert(unsigned(s) == (false, s));
    if s[1] == 'n' || s[1] == 'N' {
        if s.len() == 3 {
            assert(spelled(s, "inf"@, "INF"@));
        } else {
            assert(spelled(s, "infinity"@, "INFINITY"@));
        }
    } else {
        assert(!spelled(s, "inf"@, "INF"@)) by {
            if spelled(s, "inf"@, "INF"@) {
                assert(s[1] == "inf"@[1] || s[1] == "INF"@[1]);
            }
        }
        assert(spelled(s, "nan"@, "NAN"@));
    }
}

/// Whether a text ends a decimal number: it is empty, or an `e` of either case, an optional sign
/// and digits.
pub open spec fn ends_number(end: Seq<char>) -> bool {
    end.len() == 0 || either(end[0], 'e', 'E') && {
        let from: int = if end.len() > 1 && either(end[1], '+', '-') {
            2
        } else {
            1
        };
        end.len() > from && forall|i: int| from <= i < end.len() ==> '0' <= #[trigger] end[i] <= '9'
    }
}

/// Nothing else is read: a text that gives a number is, after an optional sign, a word, or digits
/// with an optional point and an optional exponent.
pub proof fn law_nothing_else_is_read(s: Seq<char>)
    requires
        parsed(s) is Some,
    ensures
        ({
            let from: int = if s.len() > 0 && either(s[0], '+', '-') {
                1
            } else {
                0
            };
            let size = s.skip(from);
            word(size) || exists|whole: Seq<char>, point: bool, fraction: Seq<char>, end: Seq<
                char,
            >|
                {
                    &&& size == #[trigger] written(whole, point, fraction) + end
                    &&& all_digits(whole) && all_digits(fraction)
                    &&& whole.len() + fraction.len() > 0
                    &&& #[trigger] ends_number(end)
                }
        }),
{
    let from: int = if s.len() > 0 && either(s[0], '+', '-') {
        1
    } else {
        0
    };
    let size = s.skip(from);
    assert(s.skip(0) =~= s);
    assert(unsigned(s).1 == size);
    if decimal_of(size) is Some {
        lemma_form(size);
        let (whole, fraction, end) = (whole_of(size), fraction_of(size), end_of(size));
        assert(size == written(whole, has_point(size), fraction) + end);
    } else {
        lemma_word(size);
    }
}

proof fn lemma_word(size: Seq<char>)
    requires
        spelled(size, "inf"@, "INF"@) || spelled(size, "infinity"@, "INFINITY"@) || spelled(
            size,
            "nan"@,
            "NAN"@,
        ),
    ensures
        word(size),
{
    reveal_strlit("inf");
    reveal_strlit("INF");
    reveal_strlit("infinity");
    reveal_strlit("INFINITY");
    reveal_strlit("nan");
    reveal_strlit("NAN");
    assert(either(size[0], 'i', 'I') || either(size[0], 'n', 'N'));
}

proof fn lemma_form(size: Seq<char>)
    requires
        decimal_of(size) is Some,
    ensures
        size == written(whole_of(size), has_point(size), fraction_of(size)) + end_of(size),
        all_digits(whole_of(size)),
        all_digits(fraction_of(size)),
        whole_of(size).len() + fraction_of(size).len() > 0,
        ends_number(end_of(size)),
{
    let (whole, fraction, end) = (whole_of(size), fraction_of(size), end_of(size));
    lemma_leading(size);
    assert(size =~= whole + after_whole(size));
    assert forall|i: int| 0 <= i < whole.len() implies '0' <= #[trigger] whole[i] <= '9' by {
        assert(is_digit(size[i]));
    }
    if has_point(size) {
        let rest = after_whole(size).skip(1);
        lemma_leading(rest);
        assert forall|i: int| 0 <= i < fraction.len() implies '0' <= #[trigger] fraction[i]
            <= '9' by {
            assert(is_digit(rest[i]));
        }
        assert(rest =~= fraction + end);
        assert(after_whole(size) =~= seq!['.'] + rest);
        assert(size =~= written(whole, true, fraction) + end);
    } else {
        assert(size =~= written(whole, false, fraction) + end);
    }
    if end.len() > 0 {
        let rest = end.skip(1);
        let digits = unsigned(rest).1;
        lemma_leading(digits);
        let first: int = if end.len() > 1 && either(end[1], '+', '-') {
            2
        } else {
            1
        };
        assert(end.len() > 1 ==> rest[0] == end[1]);
        assert(digits =~= end.skip(first));
        assert forall|i: int| first <= i < end.len() implies '0' <= #[trigger] end[i] <= '9' by {
            assert(is_digit(digits[i - first]));
        }
    }
}

/// The text of a finite number with two decimals: its sign, digits, a point and two more digits.
/// Read as a number of hundredths, the digits are those nearest to the value, and the even ones of
/// two equally near.
pub proof fn law_two_decimals(x: Double)
    requires
        x.is_finite(),
    ensures
        ({
            let text = x.fixed();
            let from: int = if x.negative() {
                1
            } else {
                0
            };
            let point = text.len() - 3;
            let digits = text.subrange(from, point) + text.subrange(point + 1, text.len() as int);
            let count = number(digits);
            let gap = abs(100 * x.units()) - count * pow2(1074);
            &&& point > from
            &&& x.negative() ==> text[0] == '-'
            &&& text[point] == '.'
            &&& all_digits(digits)
            &&& digits.len() > 3 ==> digits[0] != '0'
            &&& 2 * abs(gap) <= pow2(1074)
            &&& 2 * abs(gap) == pow2(1074) ==> count % 2 == 0
        }),
{
    let units = magnitude_units(x.magnitude());
    let count = hundredths(units);
    let text = x.fixed();
    let (high, low) = (decimal(count / 100), two_digits(count % 100));
    let from: int = if x.negative() {
        1
    } else {
        0
    };
    let point = text.len() - 3;
    law_decimal_notation(count / 100);
    assert(text.subrange(from, point) =~= high);
    assert(text.subrange(point + 1, text.len() as int) =~= low);
    let digits = high + low;
    assert(all_digits(low)) by {
        assert(digit((count % 100) / 10) as int == (count % 100) / 10 + 48);
        assert(digit((count % 100) % 10) as int == (count % 100) % 10 + 48);
    }
    assert forall|i: int| 0 <= i < digits.len() implies '0' <= #[trigger] digits[i] <= '9' by {
        if i < high.len() {
            assert(is_digit(high[i]));
        } else {
            assert(digits[i] == low[i - high.len()]);
        }
    }
    assert forall|i: int| 0 <= i < low.len() implies is_digit(#[trigger] low[i]) by {}
    law_digits_have_place_value(high, low);
    reveal_with_fuel(ten, 3);
    reveal_with_fuel(number, 3);
    assert(low.drop_last() =~= seq![low[0]]);
    assert(low.drop_last().drop_last() =~= Seq::<char>::empty());
    assert(number(low) == count % 100);
    assert(ten(low.len()) == 100) by {
        assert(ten(1) == 10 * ten(0));
        assert(ten(2) == 10 * ten(1));
    }
    assert(number(digits) == (count / 100) * 100 + count % 100);
    assert(abs(100 * x.units()) == 100 * units);
    lemma_pow2_pos(1074);
    lemma_half_even_is_nearest(100 * units, pow2(1074));
    let u = pow2(1074);
    assert((2 * count + 1) * u == 2 * (count * u) + u && (2 * count - 1) * u == 2 * (count * u)
        - u) by (nonlinear_arith);
    assert(digits.len() > 3 ==> count / 100 > 0 && digits[0] == high[0]);
}

/// What is no finite number is written as a word.
pub proof fn law_two_decimals_of_no_number(x: Double)
    ensures
        x.is_nan() ==> x.fixed() == "NaN"@,
        x.is_infinite() && !x.negative() ==> x.fixed() == "inf"@,
        x.is_infinite() && x.negative() ==> x.fixed() == "-inf"@,
{
    reveal_strlit("inf");
    reveal_strlit("-inf");
    assert(seq![] + "inf"@ =~= "inf"@);
    assert(seq!['-'] + "inf"@ =~= "-inf"@);
}

} // verus!
