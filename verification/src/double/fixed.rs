//! Numbers as decimal texts with two digits after the point.

use crate::double::magnitude::parts;
use crate::double::model::{half_even, magnitude_units, INFINITY_BITS};
use crate::double::rounding::{lemma_half_even_scaled, power_of_two};
use crate::double::Double;
use crate::text::{decimal, decimal_text, scaled_decimal_text, two_digits, two_digits_text};
use vstd::arithmetic::div_mod::*;
use vstd::arithmetic::power2::*;
use vstd::prelude::*;
use vstd::string::*;

verus! {

/// The hundredths nearest to a value that is counted in units of `2^-1074`, ties to even.
pub open spec fn hundredths(units: nat) -> nat {
    half_even(100 * units, pow2(1074))
}

/// A count of hundredths with a point before the last two digits.
pub open spec fn pointed(count: nat) -> Seq<char> {
    decimal(count / 100) + seq!['.'] + two_digits(count % 100)
}

impl Double {
    /// The number rounded to two decimals, with its sign.
    pub open spec fn fixed(self) -> Seq<char> {
        if self.is_nan() {
            "NaN"@
        } else {
            (if self.negative() {
                seq!['-']
            } else {
                seq![]
            }) + (if self.is_infinite() {
                "inf"@
            } else {
                pointed(hundredths(magnitude_units(self.magnitude())))
            })
        }
    }

    /// Writes the number rounded to two decimals.
    pub fn to_fixed(self) -> (r: String)
        ensures
            r@ == self.fixed(),
    {
        let (negative, mag) = self.split();
        proof {
            reveal_strlit("");
            reveal_strlit("-");
        }
        if mag > INFINITY_BITS {
            return "NaN".to_owned();
        }
        let mut r: String = if negative {
            "-".to_owned()
        } else {
            "".to_owned()
        };
        let ghost sign = r@;
        assert(sign =~= if self.negative() {
            seq!['-']
        } else {
            seq![]
        });
        if mag == INFINITY_BITS {
            r.append("inf");
        } else {
            let size: String = magnitude_text(mag);
            r.append(size.as_str());
        }
        r
    }
}

/// Writes a whole number or a count of hundredths with a point.
fn pointed_text(whole: String, part: u64, Ghost(count): Ghost<nat>) -> (r: String)
    requires
        part < 100,
        part == count % 100,
        whole@ == decimal(count / 100),
    ensures
        r@ == pointed(count),
{
    let mut r: String = whole;
    proof {
        reveal_strlit(".");
    }
    r.append(".");
    let tail: String = two_digits_text(part);
    r.append(tail.as_str());
    assert(r@ =~= pointed(count));
    r
}

/// Writes a finite magnitude rounded to two decimals.
fn magnitude_text(mag: u64) -> (r: String)
    requires
        mag < INFINITY_BITS,
    ensures
        r@ == pointed(hundredths(magnitude_units(mag as nat))),
{
    let (m, scale): (u64, u64) = parts(mag);
    let ghost units = magnitude_units(mag as nat);
    proof {
        lemma2_to64();
        lemma2_to64_rest();
    }
    if scale >= 1074 {
        proof {
            lemma_whole_hundredths(m as nat, (scale - 1074) as nat);
        }
        let whole: String = scaled_decimal_text(m, scale - 1074);
        pointed_text(whole, 0, Ghost(hundredths(units)))
    } else {
        let below: u64 = 1074 - scale;
        proof {
            lemma_part_hundredths(m as nat, scale as nat);
        }
        if below >= 62 {
            proof {
                if below > 62 {
                    lemma_pow2_strictly_increases(62, below as nat);
                }
                lemma_small_mod((100 * m) as nat, pow2(below as nat));
                lemma_basic_div((100 * m) as int, pow2(below as nat) as int);
                assert(hundredths(units) == 0);
            }
            pointed_text(decimal_text(0), 0, Ghost(hundredths(units)))
        } else {
            let unit: u64 = power_of_two(below as u32) as u64;
            let twice_rest: u64 = 2 * ((100 * m) % unit);
            let down: u64 = (100 * m) / unit;
            let count: u64 = if twice_rest < unit {
                down
            } else if twice_rest > unit {
                down + 1
            } else {
                down + down % 2
            };
            pointed_text(decimal_text((count / 100) as u128), count % 100, Ghost(hundredths(units)))
        }
    }
}

/// A whole number has no hundredths after the point.
proof fn lemma_whole_hundredths(m: nat, above: nat)
    ensures
        hundredths(m * pow2(1074 + above)) == 100 * (m * pow2(above)),
{
    let whole = m * pow2(above);
    let one = pow2(1074);
    lemma_pow2_pos(1074);
    lemma_pow2_adds(1074, above);
    assert(100 * (m * (one * pow2(above))) == (100 * (m * pow2(above))) * one)
        by (nonlinear_arith);
    lemma_fundamental_div_mod_converse(
        ((100 * whole) * one) as int,
        one as int,
        (100 * whole) as int,
        0,
    );
}

/// The hundredths of a number that is not far above one.
proof fn lemma_part_hundredths(m: nat, scale: nat)
    requires
        scale < 1074,
    ensures
        hundredths(m * pow2(scale)) == half_even(100 * m, pow2((1074 - scale) as nat)),
{
    let below = (1074 - scale) as nat;
    lemma_pow2_adds(below, scale);
    lemma_pow2_pos(below);
    lemma_pow2_pos(scale);
    assert(100 * (m * pow2(scale)) == (100 * m) * pow2(scale)) by (nonlinear_arith);
    lemma_half_even_scaled(100 * m, pow2(below), pow2(scale));
}

} // verus!
