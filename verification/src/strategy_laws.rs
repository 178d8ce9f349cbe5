//! What the strategy guarantees.

use crate::config::{law_parameters_are_their_numbers, ONE, RSI_CRASH, TRAILING_STOP_PCT};
use crate::double::laws::{law_rounding_is_nearest, law_rounding_stays_below};
use crate::double::laws::{lemma_binade_bounds, lemma_rounded_value};
use crate::double::magnitude::{lemma_next_units, lemma_parts, lemma_units_increase};
use crate::double::model::{binade, half_even, magnitude_units, rounded, scale, significand};
use crate::double::model::INFINITY_BITS;
use crate::double::rounding::{lemma_binade, lemma_half_even_is_nearest};
use crate::double::rounding::lemma_half_even_scaled;
use crate::double::{abs, law_order_is_by_value, Double};
use crate::strategy::{buy_signal, decision, peak, sell_signal, stop_factor, stop_price};
use crate::strategy::{stop_signal, BotState, Decision};
use vstd::arithmetic::mul::*;
use vstd::arithmetic::power2::*;
use vstd::prelude::*;

verus! {

/// The share of the highest price that the stop lies at, as a number.
pub const STOP_FACTOR: u64 = 0x3fef_d70a_3d70_a3d7;

/// Its significand: `0.995 * 2^53`, rounded.
pub const STOP_SIGNIFICAND: u64 = 0x1f_d70a_3d70_a3d7;

pub proof fn lemma_stop_factor()
    ensures
        stop_factor() == (Double { bits: STOP_FACTOR }),
        (Double { bits: STOP_FACTOR }).units() == STOP_SIGNIFICAND * pow2(1021),
{
    lemma2_to64();
    lemma2_to64_rest();
    law_parameters_are_their_numbers();
    let one = Double { bits: ONE };
    let part = Double { bits: TRAILING_STOP_PCT };
    let w = pow2(1014);
    let top: nat = 0xfeb_851e_b851_eb85;
    lemma_pow2_pos(1014);
    lemma_pow2_adds(60, 1014);
    lemma_pow2_adds(59, 1014);
    lemma_pow2_adds(7, 1014);
    assert(part.negated().units() == -(0x14_7ae1_47ae_147b * w));
    let total = one.units() + part.negated().units();
    assert(total == top * w) by (nonlinear_arith)
        requires
            total == 0x1000_0000_0000_0000 * w - 0x14_7ae1_47ae_147b * w,
            top == 0x1000_0000_0000_0000 - 0x14_7ae1_47ae_147b,
    ;
    let n = abs(total);
    assert(0x800_0000_0000_0000 * w <= top * w < 0x1000_0000_0000_0000 * w && top * w > 0)
        by (nonlinear_arith)
        requires
            w > 0,
            top == 0xfeb_851e_b851_eb85,
    ;
    lemma_mul_basics(pow2(1074) as int);
    lemma_mul_basics(pow2(1073) as int);
    lemma_mul_basics(pow2(1021) as int);
    lemma_binade(n, 1, 1021);
    lemma_half_even_scaled(top, 128, w);
    assert(half_even(top, 128) == STOP_SIGNIFICAND);
}

/// The stop of a price that is not negative lies half a percent below it, up to `2^-42` of it and
/// half of the smallest number, and never above it.
pub proof fn law_stop_is_half_a_percent_below(highest: Double)
    requires
        highest.is_finite(),
        highest.units() >= 0,
    ensures
        stop_price(highest).is_finite(),
        0 <= stop_price(highest).units() <= highest.units(),
        abs(995 * highest.units() - 1000 * stop_price(highest).units()) * pow2(42)
            <= highest.units() + 500 * pow2(42),
{
    lemma2_to64();
    lemma2_to64_rest();
    lemma_stop_factor();
    let factor = Double { bits: STOP_FACTOR };
    let h = highest.units() as nat;
    let f: nat = STOP_SIGNIFICAND as nat;
    let w = pow2(1021);
    let n = h * (f * w);
    let d = pow2(1074);
    lemma_pow2_pos(1021);
    lemma_pow2_pos(1074);
    lemma_pow2_adds(53, 1021);
    assert(f * w >= 0) by (nonlinear_arith)
        requires
            f >= 0,
            w >= 0,
    ;
    assert(abs(factor.units()) == f * w);
    assert(n <= h * d) by (nonlinear_arith)
        requires
            n == h * (f * w),
            d == pow2(53) * w,
            f <= pow2(53),
    ;
    law_rounding_stays_below(n, d, highest.magnitude());
    let stop = stop_price(highest);
    assert(stop.magnitude() == rounded(n, d));
    let s = magnitude_units(rounded(n, d));
    let k = binade(n, d);
    let e = d * pow2(k);
    let m = half_even(n, e);
    lemma_rounded_value(n, d);
    lemma_half_even_is_nearest(n, e);
    lemma_binade_bounds(n, d);
    law_order_is_by_value(highest, stop);
    // The error is at most half a step of the stop's binade, and a step is small beside `h`.
    let step = pow2(53) * pow2(k);
    assert((2 * m + 1) * e == 2 * (s * d) + e && (2 * m - 1) * e == 2 * (s * d) - e)
        by (nonlinear_arith)
        requires
            s * d == m * e,
    ;
    assert(step <= 2 * h || step == pow2(53)) by {
        lemma_pow2_pos(k);
        lemma_pow2_unfold(53);
        if k > 0 {
            lemma_pow2_adds(52, k);
            assert(pow2(52) * pow2(k) <= h) by (nonlinear_arith)
                requires
                    n >= d * pow2((52 + k) as nat),
                    pow2((52 + k) as nat) == pow2(52) * pow2(k),
                    n <= h * d,
                    d > 0,
            ;
            assert(step == 2 * (pow2(52) * pow2(k))) by (nonlinear_arith)
                requires
                    step == pow2(53) * pow2(k),
                    pow2(53) == 2 * pow2(52),
            ;
        } else {
            lemma_mul_basics(pow2(53) as int);
        }
    }
    assert(n == (h * f) * w && s * d == (s * pow2(53)) * w && e == step * w) by (nonlinear_arith)
        requires
            n == h * (f * w),
            d == pow2(53) * w,
            e == d * pow2(k),
            step == pow2(53) * pow2(k),
    ;
    assert(2 * (h * f) <= 2 * (s * pow2(53)) + step) by (nonlinear_arith)
        requires
            2 * ((h * f) * w) <= 2 * ((s * pow2(53)) * w) + step * w,
            w > 0,
    ;
    assert(2 * (s * pow2(53)) <= 2 * (h * f) + step) by (nonlinear_arith)
        requires
            2 * ((s * pow2(53)) * w) <= 2 * ((h * f) * w) + step * w,
            w > 0,
    ;
    assert(1000 * (h * f) == 995 * (h * pow2(53)) - 40 * h) by (nonlinear_arith)
        requires
            f == 0x1f_d70a_3d70_a3d7,
            pow2(53) == 0x20_0000_0000_0000,
    ;
    let gap = 995 * h - 1000 * s;
    assert(gap * 0x20_0000_0000_0000 == 995 * (h * pow2(53)) - 1000 * (s * pow2(53)))
        by (nonlinear_arith)
        requires
            gap == 995 * h - 1000 * s,
            pow2(53) == 0x20_0000_0000_0000,
    ;
    let rest: nat = 500 * 0x20_0000_0000_0000;
    assert(-(1040 * h + rest) <= gap * 0x20_0000_0000_0000 <= 1040 * h + rest);
    assert(abs(gap) * 0x400_0000_0000 <= h + 500 * 0x400_0000_0000);
}

/// A price that has come down by half a percent has reached the stop.
proof fn lemma_stop_is_reached(highest: Double, price: Double)
    requires
        highest.is_finite(),
        highest.units() >= 0,
        !price.is_nan(),
        1000 * price.units() <= 995 * highest.units(),
    ensures
        price.units() <= stop_price(highest).units(),
{
    lemma2_to64();
    lemma2_to64_rest();
    lemma_stop_factor();
    law_stop_is_half_a_percent_below(highest);
    let factor = Double { bits: STOP_FACTOR };
    let h = highest.units() as nat;
    let f: nat = STOP_SIGNIFICAND as nat;
    let w = pow2(1021);
    let n = h * (f * w);
    let d = pow2(1074);
    let stop = stop_price(highest);
    let s = stop.units() as nat;
    lemma_pow2_pos(1021);
    lemma_pow2_pos(1074);
    lemma_pow2_adds(53, 1021);
    assert(f * w >= 0) by (nonlinear_arith)
        requires
            f >= 0,
            w >= 0,
    ;
    assert(abs(factor.units()) == f * w);
    assert(stop.magnitude() == rounded(n, d));
    if price.units() > s {
        let p = price.units() as nat;
        let (low, high) = (stop.magnitude(), price.magnitude());
        law_order_is_by_value(stop, price);
        law_order_is_by_value(price, highest);
        lemma_parts(low);
        lemma_parts(high);
        assert(s == magnitude_units(low) && p == magnitude_units(high));
        assert(low < high < INFINITY_BITS) by {
            if high < low {
                lemma_units_increase(high, low);
            }
            if highest.magnitude() < high {
                lemma_units_increase(highest.magnitude(), high);
            }
        }
        law_rounding_is_nearest(n, d, high);
        // The two differ by a step at least, and a step is `2^-53` of the price at least.
        let below = (high - 1) as nat;
        lemma_next_units(below);
        lemma_parts(below);
        if low < below {
            lemma_units_increase(low, below);
        }
        let (m, step) = (significand(below), pow2(scale(below)));
        assert((m + 1) * step == m * step + step) by (nonlinear_arith);
        assert((m + 1) * step <= pow2(53) * step) by (nonlinear_arith)
            requires
                m + 1 <= pow2(53),
        ;
        assert(p <= (p - s) * pow2(53)) by (nonlinear_arith)
            requires
                p <= pow2(53) * step,
                step <= p - s,
        ;
        // The product is nearer to the price than half of that.
        assert(n == (h * f) * w && s * d == (s * pow2(53)) * w && p * d == (p * pow2(53)) * w)
            by (nonlinear_arith)
            requires
                n == h * (f * w),
                d == pow2(53) * w,
        ;
        let (x, y, z) = ((h * f) as int, (s * pow2(53)) as int, (p * pow2(53)) as int);
        assert(abs(x - y) <= abs(x - z)) by {
            lemma_abs_scaled(x - y, w);
            lemma_abs_scaled(x - z, w);
            assert(x * w - y * w == (x - y) * w && x * w - z * w == (x - z) * w)
                by (nonlinear_arith);
            assert(abs(x - y) <= abs(x - z)) by (nonlinear_arith)
                requires
                    abs(x - y) * w <= abs(x - z) * w,
                    w > 0,
            ;
        }
        assert(1000 * (h * f) == 995 * (h * pow2(53)) - 40 * h) by (nonlinear_arith)
            requires
                f == 0x1f_d70a_3d70_a3d7,
                pow2(53) == 0x20_0000_0000_0000,
        ;
        assert(1000 * z <= 995 * (h * pow2(53))) by (nonlinear_arith)
            requires
                1000 * p <= 995 * h,
                z == p * pow2(53),
        ;
        assert((p - s) * pow2(53) == z - y) by (nonlinear_arith)
            requires
                z == p * pow2(53),
                y == s * pow2(53),
        ;
        assert(z > x);
        assert(1000 * (z - y) <= 80 * h);
        assert(z == p * 0x20_0000_0000_0000 && h * pow2(53) == h * 0x20_0000_0000_0000);
    }
}

proof fn lemma_abs_scaled(x: int, w: nat)
    ensures
        abs(x * w) == abs(x) * w,
{
    assert(x >= 0 ==> x * w >= 0) by (nonlinear_arith);
    assert(x < 0 ==> x * w <= 0 && (-x) * w == -(x * w)) by (nonlinear_arith);
}

/// The trailing stop: a price that has come down from the highest price by half a percent or more
/// closes the position at once, one that has come down by clearly less does not. "Clearly" leaves
/// out a margin of `2^-42` of the highest price and half of the smallest number.
pub proof fn law_trailing_stop(
    entry_price: Double,
    highest_price: Double,
    quantity: Double,
    price: Double,
    rsi: Double,
    bb_lower: Double,
)
    requires
        !price.is_nan(),
        peak(highest_price, price).is_finite(),
        peak(highest_price, price).units() >= 0,
    ensures
        ({
            let held = BotState::InPosition { entry_price, highest_price, quantity };
            let made = decision(held, price, rsi, bb_lower).1;
            let h = peak(highest_price, price).units();
            let p = price.units();
            let margin = h + 500 * pow2(42);
            &&& p < h && 1000 * p <= 995 * h ==> made is StopLoss
            &&& 1000 * p * pow2(42) > 995 * h * pow2(42) + margin ==> !(made is StopLoss)
        }),
{
    lemma2_to64_rest();
    let highest = peak(highest_price, price);
    let stop = stop_price(highest);
    law_stop_is_half_a_percent_below(highest);
    law_order_is_by_value(price, stop);
    law_order_is_by_value(price, highest);
    let h = highest.units();
    let p = price.units();
    if 1000 * p <= 995 * h {
        lemma_stop_is_reached(highest, price);
    }
    assert(995 * h * pow2(42) == 995 * (h * pow2(42))) by (nonlinear_arith);
    assert(1000 * p * pow2(42) == 1000 * (p * pow2(42))) by (nonlinear_arith);
}

/// A price that does not lie below the highest one so far never triggers the stop: without a
/// reversal nothing is stopped.
pub proof fn law_new_high_is_never_stopped(
    entry_price: Double,
    highest_price: Double,
    quantity: Double,
    price: Double,
    rsi: Double,
    bb_lower: Double,
)
    requires
        !price.is_below(highest_price),
    ensures
        !(decision(
            (BotState::InPosition { entry_price, highest_price, quantity }),
            price,
            rsi,
            bb_lower,
        ).1 is StopLoss),
{
}

/// A position is opened from no position alone, and then exactly on a buy signal; deep
/// overselling is one whatever the band says.
pub proof fn law_entry(state: BotState, price: Double, rsi: Double, bb_lower: Double)
    ensures
        decision(state, price, rsi, bb_lower).1 is Buy <==> state is Idle && buy_signal(
            price,
            rsi,
            bb_lower,
        ),
        state is Idle && rsi.is_below(Double { bits: RSI_CRASH }) ==> decision(
            state,
            price,
            rsi,
            bb_lower,
        ).1 is Buy,
{
}

/// A position is closed exactly if the price has come down to the trailing stop or momentum is
/// overbought; the whole quantity goes, and no position remains.
pub proof fn law_exit(
    entry_price: Double,
    highest_price: Double,
    quantity: Double,
    price: Double,
    rsi: Double,
    bb_lower: Double,
)
    ensures
        ({
            let held = BotState::InPosition { entry_price, highest_price, quantity };
            let (after, made) = decision(held, price, rsi, bb_lower);
            let out = stop_signal(peak(highest_price, price), price) || sell_signal(rsi);
            &&& out <==> made is StopLoss || made is TakeProfit
            &&& out <==> after is Idle
            &&& made matches Decision::StopLoss { quantity: sold, .. } ==> sold == quantity
            &&& made matches Decision::TakeProfit { quantity: sold, .. } ==> sold == quantity
        }),
{
}

/// The highest price of a position after a sequence of prices, from the entry price on.
pub open spec fn highest_since(entry_price: Double, prices: Seq<Double>) -> Double
    decreases prices.len(),
{
    if prices.len() == 0 {
        entry_price
    } else {
        peak(highest_since(entry_price, prices.drop_last()), prices.last())
    }
}

/// The state after ticks, each a price, a relative strength and a lower band.
pub open spec fn after_decisions(state: BotState, ticks: Seq<(Double, Double, Double)>) -> BotState
    decreases ticks.len(),
{
    if ticks.len() == 0 {
        state
    } else {
        let t = ticks.last();
        decision(after_decisions(state, ticks.drop_last()), t.0, t.1, t.2).0
    }
}

/// The prices of ticks.
pub open spec fn tick_prices(ticks: Seq<(Double, Double, Double)>) -> Seq<Double> {
    ticks.map_values(|t: (Double, Double, Double)| t.0)
}

/// As long as a position is held, the highest price that it is measured against is the highest
/// one since its entry: the entry price or a price since then, and none of these lies above it.
pub proof fn law_highest_price_is_tracked(
    entry_price: Double,
    quantity: Double,
    ticks: Seq<(Double, Double, Double)>,
)
    requires
        !entry_price.is_nan(),
        forall|n: int|
            0 <= n <= ticks.len() ==> after_decisions(
                (BotState::InPosition { entry_price, highest_price: entry_price, quantity }),
                #[trigger] ticks.take(n),
            ) is InPosition,
    ensures
        ({
            let prices = tick_prices(ticks);
            let highest = highest_since(entry_price, prices);
            &&& after_decisions(
                (BotState::InPosition { entry_price, highest_price: entry_price, quantity }),
                ticks,
            ) == (BotState::InPosition { entry_price, highest_price: highest, quantity })
            &&& highest == entry_price || prices.contains(highest)
            &&& !highest.is_nan()
            &&& !highest.is_below(entry_price)
            &&& forall|i: int| 0 <= i < prices.len() ==> !highest.is_below(#[trigger] prices[i])
        }),
    decreases ticks.len(),
{
    let start = BotState::InPosition { entry_price, highest_price: entry_price, quantity };
    let prices = tick_prices(ticks);
    let highest = highest_since(entry_price, prices);
    if ticks.len() > 0 {
        let init = ticks.drop_last();
        assert(tick_prices(init) =~= prices.drop_last());
        assert forall|n: int| 0 <= n <= init.len() implies after_decisions(
            start,
            #[trigger] init.take(n),
        ) is InPosition by {
            assert(init.take(n) =~= ticks.take(n));
        }
        law_highest_price_is_tracked(entry_price, quantity, init);
        assert(ticks.take(ticks.len() as int) =~= ticks);
        let before = highest_since(entry_price, prices.drop_last());
        if before != entry_price {
            let i = choose|i: int|
                0 <= i < prices.drop_last().len() && prices.drop_last()[i] == before;
            assert(prices[i] == before);
        }
        assert(prices[prices.len() - 1] == prices.last());
        assert forall|i: int| 0 <= i < prices.len() implies !highest.is_below(
            #[trigger] prices[i],
        ) by {
            if i < prices.len() - 1 {
                assert(prices.drop_last()[i] == prices[i]);
            }
        }
    }
}

} // verus!
