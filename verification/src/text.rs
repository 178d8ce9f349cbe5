//! Decimal digits.

use vstd::arithmetic::power2::*;
use vstd::prelude::*;
use vstd::string::*;

verus! {

/// The decimal digit that stands for `n`.
pub open spec fn digit(n: nat) -> char {
    (n + '0' as nat) as char
}

/// The decimal notation of `n`, without leading zeros.
pub open spec fn decimal(n: nat) -> Seq<char>
    decreases n,
{
    if n < 10 {
        seq![digit(n)]
    } else {
        decimal(n / 10).push(digit(n % 10))
    }
}

/// `n` as two decimal digits.
pub open spec fn two_digits(n: nat) -> Seq<char> {
    seq![digit(n / 10), digit(n % 10)]
}

/// The digit for a number below ten.
fn digit_text(n: u128) -> (r: &'static str)
    requires
        n < 10,
    ensures
        r@ == seq![digit(n as nat)],
{
    proof {
        reveal_strlit("0");
        reveal_strlit("1");
        reveal_strlit("2");
        reveal_strlit("3");
        reveal_strlit("4");
        reveal_strlit("5");
        reveal_strlit("6");
        reveal_strlit("7");
        reveal_strlit("8");
        reveal_strlit("9");
    }
    if n == 0 {
        "0"
    } else if n == 1 {
        "1"
    } else if n == 2 {
        "2"
    } else if n == 3 {
        "3"
    } else if n == 4 {
        "4"
    } else if n == 5 {
        "5"
    } else if n == 6 {
        "6"
    } else if n == 7 {
        "7"
    } else if n == 8 {
        "8"
    } else {
        "9"
    }
}

/// Writes `n` in decimal notation.
pub fn decimal_text(n: u128) -> (r: String)
    ensures
        r@ == decimal(n as nat),
    decreases n,
{
    if n < 10 {
        digit_text(n).to_owned()
    } else {
        let mut r: String = decimal_text(n / 10);
        r.append(digit_text(n % 10));
        r
    }
}

/// Decimal notation consists of digits.
pub proof fn lemma_decimal_digits(n: nat)
    ensures
        decimal(n).len() > 0,
        forall|i: int| 0 <= i < decimal(n).len() ==> '0' <= #[trigger] decimal(n)[i] <= '9',
    decreases n,
{
    if n >= 10 {
        lemma_decimal_digits(n / 10);
    }
}

/// Decimal notation has no more digits than octal notation.
pub proof fn lemma_decimal_len(n: nat, octal_digits: nat)
    requires
        octal_digits > 0,
        n < pow2(3 * octal_digits),
    ensures
        decimal(n).len() <= octal_digits,
    decreases octal_digits,
{
    lemma2_to64();
    if octal_digits > 1 {
        let rest = (octal_digits - 1) as nat;
        lemma_pow2_adds(3, 3 * rest);
        if n >= 10 {
            lemma_decimal_len(n / 10, rest);
        }
    }
}

/// Writes a number below one hundred as two digits.
pub fn two_digits_text(n: u64) -> (r: String)
    requires
        n < 100,
    ensures
        r@ == two_digits(n as nat),
{
    let mut r: String = digit_text((n / 10) as u128).to_owned();
    r.append(digit_text((n % 10) as u128));
    assert(r@ =~= two_digits(n as nat));
    r
}

/// The number that has these digits, the lowest first, and `rest` above them.
pub open spec fn long_value(digits: Seq<u8>, rest: nat) -> nat
    decreases digits.len(),
{
    if digits.len() == 0 {
        rest
    } else {
        digits[0] as nat + 10 * long_value(digits.drop_first(), rest)
    }
}

/// Whether these are the digits of a number, without leading zeros.
pub open spec fn long_digits(digits: Seq<u8>) -> bool {
    &&& digits.len() > 0
    &&& forall|i: int| 0 <= i < digits.len() ==> #[trigger] digits[i] < 10
    &&& digits.len() > 1 ==> digits.last() > 0
}

proof fn lemma_long_push(digits: Seq<u8>, d: u8, rest: nat)
    ensures
        long_value(digits.push(d), rest) == long_value(digits, d as nat + 10 * rest),
    decreases digits.len(),
{
    reveal_with_fuel(long_value, 2);
    if digits.len() > 0 {
        assert(digits.push(d).drop_first() =~= digits.drop_first().push(d));
        lemma_long_push(digits.drop_first(), d, rest);
    } else {
        assert(digits.push(d).drop_first() =~= Seq::<u8>::empty());
    }
}

/// Leaving digits off the low end of a number.
proof fn lemma_long_skip(digits: Seq<u8>, i: int)
    requires
        0 <= i < digits.len(),
    ensures
        long_value(digits.skip(i), 0) == digits[i] as nat + 10 * long_value(digits.skip(i + 1), 0),
{
    assert(digits.skip(i).drop_first() =~= digits.skip(i + 1));
}

proof fn lemma_long_text(digits: Seq<u8>, i: int)
    requires
        long_digits(digits),
        0 <= i < digits.len(),
    ensures
        decimal(long_value(digits.skip(i), 0)) == Seq::new(
            (digits.len() - i) as nat,
            |j: int| digit(digits[digits.len() - 1 - j] as nat),
        ),
        long_value(digits.skip(i), 0) > 0 || digits.len() == 1,
    decreases digits.len() - i,
{
    let n = long_value(digits.skip(i), 0);
    lemma_long_skip(digits, i);
    if i == digits.len() - 1 {
        assert(digits.skip(i + 1) =~= Seq::<u8>::empty());
        assert(n == digits[i]);
        assert(decimal(n) =~= Seq::new(1, |j: int| digit(digits[digits.len() - 1 - j] as nat)));
    } else {
        lemma_long_text(digits, i + 1);
        assert(n / 10 == long_value(digits.skip(i + 1), 0) && n % 10 == digits[i]);
        assert(decimal(n) =~= Seq::new(
            (digits.len() - i) as nat,
            |j: int| digit(digits[digits.len() - 1 - j] as nat),
        ));
    }
}

/// The digits of a number, the lowest first.
fn long_number(n: u64) -> (r: Vec<u8>)
    ensures
        long_digits(r@),
        long_value(r@, 0) == n,
{
    let mut r: Vec<u8> = Vec::new();
    let mut rest: u64 = n;
    while rest >= 10
        invariant
            forall|i: int| 0 <= i < r@.len() ==> #[trigger] r@[i] < 10,
            long_value(r@, rest as nat) == n,
            r@.len() > 0 ==> rest > 0,
        decreases rest,
    {
        proof {
            lemma_long_push(r@, (rest % 10) as u8, (rest / 10) as nat);
        }
        r.push((rest % 10) as u8);
        rest = rest / 10;
    }
    proof {
        lemma_long_push(r@, rest as u8, 0);
    }
    r.push(rest as u8);
    r
}

/// Doubles a number, given and returned as digits, the lowest first.
fn long_double(digits: &Vec<u8>) -> (r: Vec<u8>)
    requires
        long_digits(digits@),
        long_value(digits@, 0) > 0,
    ensures
        long_digits(r@),
        long_value(r@, 0) == 2 * long_value(digits@, 0),
{
    let mut r: Vec<u8> = Vec::new();
    let mut carry: u8 = 0;
    let mut i: usize = 0;
    proof {
        assert(digits@.skip(0) =~= digits@);
    }
    while i < digits.len()
        invariant
            long_digits(digits@),
            i <= digits@.len(),
            r@.len() == i,
            carry <= 1,
            forall|j: int| 0 <= j < r@.len() ==> #[trigger] r@[j] < 10,
            long_value(r@, carry as nat + 2 * long_value(digits@.skip(i as int), 0)) == 2
                * long_value(digits@, 0),
            i == digits@.len() && digits@.last() > 0 ==> carry > 0 || r@.last() > 0,
        decreases digits@.len() - i,
    {
        let twice: u8 = 2 * digits[i] + carry;
        proof {
            lemma_long_skip(digits@, i as int);
            lemma_long_push(
                r@,
                (twice % 10) as u8,
                (twice / 10) as nat + 2 * long_value(digits@.skip(i + 1), 0),
            );
        }
        r.push(twice % 10);
        carry = twice / 10;
        i = i + 1;
    }
    proof {
        assert(digits@.skip(i as int) =~= Seq::<u8>::empty());
        if digits@.len() == 1 {
            lemma_long_skip(digits@, 0);
            assert(digits@.skip(1) =~= Seq::<u8>::empty());
        }
    }
    if carry > 0 {
        proof {
            lemma_long_push(r@, carry, 0);
        }
        r.push(carry);
    }
    r
}

/// Writes digits, the lowest first, as a text.
fn long_text(digits: &Vec<u8>) -> (r: String)
    requires
        long_digits(digits@),
    ensures
        r@ == decimal(long_value(digits@, 0)),
{
    let mut r: String = "".to_owned();
    let mut i: usize = digits.len();
    proof {
        reveal_strlit("");
        assert(r@ =~= Seq::<char>::empty());
    }
    while i > 0
        invariant
            long_digits(digits@),
            i <= digits@.len(),
            r@ == Seq::new(
                (digits@.len() - i) as nat,
                |j: int| digit(digits@[digits@.len() - 1 - j] as nat),
            ),
        decreases i,
    {
        i = i - 1;
        r.append(digit_text(digits[i] as u128));
        assert(r@ =~= Seq::new(
            (digits@.len() - i) as nat,
            |j: int| digit(digits@[digits@.len() - 1 - j] as nat),
        ));
    }
    proof {
        lemma_long_text(digits@, 0);
        assert(digits@.skip(0) =~= digits@);
    }
    r
}

/// Writes `n * 2^doublings` in decimal notation.
pub fn scaled_decimal_text(n: u64, doublings: u64) -> (r: String)
    requires
        n > 0,
    ensures
        r@ == decimal(n as nat * pow2(doublings as nat)),
{
    let mut digits: Vec<u8> = long_number(n);
    let mut i: u64 = 0;
    proof {
        lemma2_to64();
        assert(n * 1 == n);
    }
    while i < doublings
        invariant
            n > 0,
            i <= doublings,
            long_digits(digits@),
            long_value(digits@, 0) == n * pow2(i as nat),
        decreases doublings - i,
    {
        proof {
            lemma_pow2_pos(i as nat);
            lemma_pow2_unfold((i + 1) as nat);
            assert(n * pow2(i as nat) > 0) by (nonlinear_arith)
                requires
                    n > 0,
                    pow2(i as nat) > 0,
            ;
            assert(n * (2 * pow2(i as nat)) == 2 * (n * pow2(i as nat))) by (nonlinear_arith);
        }
        digits = long_double(&digits);
        i = i + 1;
    }
    long_text(&digits)
}

} // verus!
