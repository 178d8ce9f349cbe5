//! What each decision means in numbers: the values of its results, over the values of prices and
//! indicators. A value is counted in units of `2^-1074`, of which one has `2^1074`.

use crate::config::{law_parameters_are_their_numbers, HUNDRED, ONE, TRADE_CAPITAL};
use crate::config::TRAILING_STOP_PCT;
use crate::double::exact::{law_difference, law_product, law_quotient, law_quotient_by_negative};
use crate::double::exact::{lemma_signed_rounds, rounds_to};
use crate::double::laws::{law_rounding_stays_below, lemma_packed_units};
use crate::double::magnitude::{lemma_next_units, lemma_parts, lemma_units_increase};
use crate::double::model::{magnitude_units, rounded, scale, significand, INFINITY_BITS};
use crate::double::{abs, law_order_is_by_value, signed, Double};
use crate::strategy::{decision, gain_of, peak, stop_factor, BotState, Decision};
use crate::strategy_laws::{law_trailing_stop, lemma_stop_factor};
use vstd::arithmetic::power2::*;
use vstd::prelude::*;

verus! {

/// When a position is opened: without one, if the relative strength is below 20, or if it is
/// below 30 and the price below the lower band. The position begins at the price, which is also
/// its highest price. Otherwise a bot without a position stays without one.
pub proof fn law_when_a_position_is_opened(
    state: BotState,
    price: Double,
    rsi: Double,
    bb_lower: Double,
)
    ensures
        ({
            let (after, made) = decision(state, price, rsi, bb_lower);
            let deep = !rsi.is_nan() && rsi.units() < 20 * pow2(1074);
            let oversold = !rsi.is_nan() && rsi.units() < 30 * pow2(1074);
            let pierced = !price.is_nan() && !bb_lower.is_nan() && price.units()
                < bb_lower.units();
            &&& made is Buy <==> state is Idle && (deep || oversold && pierced)
            &&& made matches Decision::Buy { quantity } ==> after == (BotState::InPosition {
                entry_price: price,
                highest_price: price,
                quantity,
            })
            &&& state is Idle && !(made is Buy) ==> made is Scan && after is Idle
            &&& made is Scan ==> state is Idle
        }),
{
    law_parameters_are_their_numbers();
    let deep = Double { bits: crate::config::RSI_CRASH };
    let over = Double { bits: crate::config::RSI_BUY };
    if !rsi.is_nan() {
        law_order_is_by_value(rsi, deep);
        law_order_is_by_value(rsi, over);
    }
    if !price.is_nan() && !bb_lower.is_nan() {
        law_order_is_by_value(price, bb_lower);
    }
}

/// How much is bought: the quantity is the number nearest to 10000 divided by the price. So no
/// other quantity brings quantity times price nearer to 10000.
pub proof fn law_position_is_worth_the_capital(
    price: Double,
    rsi: Double,
    bb_lower: Double,
    other: Double,
)
    requires
        price.is_finite(),
        price.units() > 0,
        !other.is_nan(),
    ensures
        decision(BotState::Idle, price, rsi, bb_lower).1 matches Decision::Buy { quantity } ==> {
            let capital = 10000 * pow2(1074) * pow2(1074);
            &&& rounds_to(quantity, capital as int, price.units())
            &&& abs(capital - quantity.units() * price.units()) <= abs(
                capital - other.units() * price.units(),
            )
        },
{
    law_parameters_are_their_numbers();
    law_quotient(Double { bits: TRADE_CAPITAL }, price);
    assert((10000 * pow2(1074)) * pow2(1074) == 10000 * pow2(1074) * pow2(1074));
}

/// How much is bought at a price that is not positive, or no finite number.
pub proof fn law_position_at_odd_prices(price: Double, rsi: Double, bb_lower: Double)
    requires
        !(price.is_finite() && price.units() > 0),
    ensures
        decision(BotState::Idle, price, rsi, bb_lower).1 matches Decision::Buy { quantity } ==> {
            &&& price.is_nan() ==> quantity.is_nan()
            &&& price.is_infinite() ==> quantity.is_zero()
            &&& price.is_zero() ==> quantity.is_infinite() && quantity.negative()
                == price.negative()
            &&& price.is_finite() && price.units() < 0 ==> rounds_to(
                quantity,
                -(10000 * pow2(1074) * pow2(1074)),
                -price.units(),
            )
        },
{
    law_parameters_are_their_numbers();
    if price.is_finite() && price.units() < 0 {
        law_quotient_by_negative(Double { bits: TRADE_CAPITAL }, price);
        assert((10000 * pow2(1074)) * pow2(1074) == 10000 * pow2(1074) * pow2(1074));
    }
}

/// Whether `highest` is the higher one of two prices: the later one if it lies above the earlier
/// one, else the earlier one.
pub open spec fn higher_of(earlier: Double, later: Double, highest: Double) -> bool {
    if !earlier.is_nan() && !later.is_nan() && later.units() > earlier.units() {
        highest == later
    } else {
        highest == earlier
    }
}

/// How a position goes on: momentum over 70 sells it, unless the stop does; what is sold is what
/// was bought; what is held keeps its entry and its quantity, and takes the price as its highest
/// one if it lies above that.
pub proof fn law_how_a_position_goes_on(
    entry_price: Double,
    highest_price: Double,
    quantity: Double,
    price: Double,
    rsi: Double,
    bb_lower: Double,
)
    ensures
        ({
            let held = BotState::InPosition { entry_price, highest_price, quantity };
            let (after, made) = decision(held, price, rsi, bb_lower);
            let overbought = !rsi.is_nan() && rsi.units() > 70 * pow2(1074);
            &&& made is StopLoss || made is TakeProfit || made is Hold
            &&& made is TakeProfit <==> overbought && !(made is StopLoss)
            &&& made matches Decision::StopLoss { quantity: sold, .. } ==> sold == quantity
            &&& made matches Decision::TakeProfit { quantity: sold, .. } ==> sold == quantity
            &&& made is StopLoss || made is TakeProfit ==> after is Idle
            &&& made is Hold ==> (after matches BotState::InPosition {
                entry_price: entry,
                highest_price: highest,
                quantity: kept,
            } && entry == entry_price && kept == quantity && higher_of(
                highest_price,
                price,
                highest,
            ))
        }),
{
    law_parameters_are_their_numbers();
    let over = Double { bits: crate::config::RSI_SELL };
    if !rsi.is_nan() {
        law_order_is_by_value(over, rsi);
    }
    if !highest_price.is_nan() && !price.is_nan() {
        law_order_is_by_value(highest_price, price);
    }
}

/// When a position is stopped: if the price has come down from the highest one, this price
/// included, by half a percent or more. It is not if the price has come down by clearly less, or
/// not at all, or if any of the prices is no number. "Clearly" leaves out a margin of `2^-42` of
/// the highest price and half of the smallest number.
pub proof fn law_when_a_position_is_stopped(
    entry_price: Double,
    highest_price: Double,
    quantity: Double,
    price: Double,
    rsi: Double,
    bb_lower: Double,
)
    ensures
        ({
            let held = BotState::InPosition { entry_price, highest_price, quantity };
            let made = decision(held, price, rsi, bb_lower).1;
            let p = price.units();
            let h = if p > highest_price.units() {
                p
            } else {
                highest_price.units()
            };
            let margin = h + 500 * pow2(42);
            let ordinary = price.is_finite() && highest_price.is_finite() && h >= 0;
            &&& price.is_nan() || highest_price.is_nan() ==> !(made is StopLoss)
            &&& p >= highest_price.units() ==> !(made is StopLoss)
            &&& ordinary && p < h && 1000 * p <= 995 * h ==> made is StopLoss
            &&& ordinary && 1000 * p * pow2(42) > 995 * h * pow2(42) + margin ==> !(
            made is StopLoss)
        }),
{
    let highest = peak(highest_price, price);
    if !price.is_nan() && !highest_price.is_nan() {
        law_order_is_by_value(highest_price, price);
        law_order_is_by_value(price, highest_price);
        law_order_is_by_value(price, highest);
        if price.is_finite() && highest_price.is_finite() && highest.units() >= 0 {
            law_trailing_stop(entry_price, highest_price, quantity, price, rsi, bb_lower);
        }
    }
}

/// What a closed position has made: the difference of the prices, rounded, times the quantity,
/// rounded.
pub proof fn law_profit_of_a_closed_position(
    entry_price: Double,
    highest_price: Double,
    quantity: Double,
    price: Double,
    rsi: Double,
    bb_lower: Double,
)
    requires
        entry_price.is_finite(),
        price.is_finite(),
        quantity.is_finite(),
        entry_price.units() >= 0,
        price.units() >= 0,
    ensures
        ({
            let held = BotState::InPosition { entry_price, highest_price, quantity };
            let made = decision(held, price, rsi, bb_lower).1;
            let profit = if made is StopLoss {
                made->StopLoss_profit
            } else {
                made->TakeProfit_profit
            };
            made is StopLoss || made is TakeProfit ==> {
                &&& exists|gap: Double|
                    {
                        &&& #[trigger] rounds_to(gap, price.units() - entry_price.units(), 1)
                        &&& rounds_to(profit, gap.units() * quantity.units(), pow2(1074) as int)
                    }
                &&& quantity.units() >= 0 && price.units() >= entry_price.units()
                    ==> profit.units() >= 0
                &&& quantity.units() >= 0 && price.units() <= entry_price.units()
                    ==> profit.units() <= 0
            }
        }),
{
    let held = BotState::InPosition { entry_price, highest_price, quantity };
    let made = decision(held, price, rsi, bb_lower).1;
    let gap = price.difference(entry_price);
    let profit = gap.product(quantity);
    lemma_gap(entry_price, price);
    law_product(gap, quantity);
    lemma_pow2_pos(1074);
    let n = gap.units() * quantity.units();
    assert(gap.units() >= 0 && quantity.units() >= 0 ==> n >= 0) by (nonlinear_arith)
        requires
            n == gap.units() * quantity.units(),
    ;
    assert(gap.units() <= 0 && quantity.units() >= 0 ==> n <= 0) by (nonlinear_arith)
        requires
            n == gap.units() * quantity.units(),
    ;
    lemma_sign(profit, n, pow2(1074));
    if made is StopLoss || made is TakeProfit {
        assert(rounds_to(gap, price.units() - entry_price.units(), 1));
    }
}

/// A result has the sign of what it is the nearest number to.
proof fn lemma_sign(x: Double, n: int, d: nat)
    requires
        d > 0,
        rounds_to(x, n, d as int),
    ensures
        n >= 0 ==> x.units() >= 0,
        n <= 0 ==> x.units() <= 0,
{
    let zero = Double { bits: 0 };
    lemma_parts(0);
    assert(zero.units() == 0);
    assert(!zero.is_nan());
    let u = x.units();
    assert(zero.units() * d == 0) by (nonlinear_arith)
        requires
            zero.units() == 0,
    ;
    assert(u > 0 ==> u * d > 0) by (nonlinear_arith)
        requires
            d > 0,
    ;
    assert(u < 0 ==> u * d < 0) by (nonlinear_arith)
        requires
            d > 0,
    ;
    assert(abs(n - u * d) <= abs(n - zero.units() * d));
}

/// A result is not zero where it is the nearest number to a unit or more.
proof fn lemma_not_zero(x: Double, n: int, d: nat)
    requires
        d > 0,
        rounds_to(x, n, d as int),
        abs(n) >= d,
    ensures
        n > 0 ==> x.units() > 0,
        n < 0 ==> x.units() < 0,
{
    let one = Double { bits: 1 };
    let minus = Double { bits: 0x8000_0000_0000_0001 };
    lemma2_to64();
    assert(one.units() == 1 && minus.units() == -1) by {
        assert(scale(1) == 0 && significand(1) == 1);
        assert(1 * pow2(0) == 1) by (nonlinear_arith)
            requires
                pow2(0) == 1,
        ;
    }
    lemma_sign(x, n, d);
    assert(one.units() * d == d && minus.units() * d == -d) by (nonlinear_arith)
        requires
            one.units() == 1,
            minus.units() == -1,
    ;
    if x.units() == 0 {
        assert(x.units() * d == 0) by (nonlinear_arith)
            requires
                x.units() == 0,
        ;
        assert(abs(n - x.units() * d) <= abs(n - one.units() * d));
        assert(abs(n - x.units() * d) <= abs(n - minus.units() * d));
    }
}

/// The rounded difference of two prices: finite, and of the sign of the exact one.
proof fn lemma_gap(entry: Double, price: Double)
    requires
        entry.is_finite(),
        price.is_finite(),
        entry.units() >= 0,
        price.units() >= 0,
    ensures
        price.difference(entry).is_finite(),
        rounds_to(price.difference(entry), price.units() - entry.units(), 1),
        price.units() > entry.units() ==> price.difference(entry).units() > 0,
        price.units() == entry.units() ==> price.difference(entry).units() == 0,
        price.units() < entry.units() ==> price.difference(entry).units() < 0,
{
    let n = price.units() - entry.units();
    let gap = price.difference(entry);
    law_difference(price, entry);
    lemma_sign(gap, n, 1);
    if n != 0 {
        lemma_not_zero(gap, n, 1);
    }
    let larger = if n > 0 {
        price
    } else {
        entry
    };
    lemma_parts(larger.magnitude());
    assert(larger.units() == magnitude_units(larger.magnitude()));
    assert(magnitude_units(larger.magnitude()) * 1 == magnitude_units(larger.magnitude()));
    law_rounding_stays_below(abs(n), 1, larger.magnitude());
}

/// A power of two is a number.
proof fn lemma_power_is_a_number(k: nat) -> (x: Double)
    requires
        k <= 2045,
    ensures
        x.is_finite(),
        x.units() == pow2(k),
{
    lemma2_to64_rest();
    lemma2_to64();
    if k < 52 {
        lemma_pow2_strictly_increases(k, 52);
        lemma_packed_units(0, pow2(k));
        assert(pow2(k) * pow2(0) == pow2(k)) by (nonlinear_arith)
            requires
                pow2(0) == 1,
        ;
        Double { bits: pow2(k) as u64 }
    } else {
        let j = (k - 52) as nat;
        lemma_packed_units(j, pow2(52));
        lemma_pow2_adds(52, j);
        Double { bits: (j * 0x10_0000_0000_0000 + 0x10_0000_0000_0000) as u64 }
    }
}

/// Two different prices differ by at least `2^-53` of either, and so do their rounded values.
proof fn lemma_gap_is_wide(entry: Double, price: Double)
    requires
        entry.is_finite(),
        price.is_finite(),
        entry.units() > 0,
        price.units() >= 0,
        price.units() != entry.units(),
    ensures
        abs(price.difference(entry).units()) * pow2(53) >= entry.units(),
{
    let gap = price.difference(entry);
    let n = price.units() - entry.units();
    lemma_gap(entry, price);
    let (low, high) = if n > 0 {
        (entry.magnitude(), price.magnitude())
    } else {
        (price.magnitude(), entry.magnitude())
    };
    lemma_parts(low);
    lemma_parts(high);
    assert(magnitude_units(low) < magnitude_units(high));
    assert(low < high) by {
        if high < low {
            lemma_units_increase(high, low);
        }
    }
    let below = (high - 1) as nat;
    lemma_next_units(below);
    lemma_parts(below);
    if low < below {
        lemma_units_increase(low, below);
    }
    let (m, k) = (significand(below), scale(below));
    let step = pow2(k);
    assert((m + 1) * step == m * step + step) by (nonlinear_arith);
    assert((m + 1) * step <= pow2(53) * step) by (nonlinear_arith)
        requires
            m + 1 <= pow2(53),
    ;
    assert(abs(n) >= step);
    let x = lemma_power_is_a_number(k);
    let y = x.negated();
    assert(y.units() == -x.units() && !y.is_nan());
    assert(x.units() * 1 == x.units() && y.units() * 1 == y.units() && gap.units() * 1
        == gap.units());
    assert(abs(n - gap.units() * 1) <= abs(n - x.units() * 1));
    assert(abs(n - gap.units() * 1) <= abs(n - y.units() * 1));
    assert(abs(gap.units()) >= step);
    assert(abs(gap.units()) * pow2(53) >= pow2(53) * step) by (nonlinear_arith)
        requires
            abs(gap.units()) >= step,
    ;
}

/// The unrealized gain of a position: the difference of the prices, rounded, divided by the entry
/// price, rounded, times one hundred, rounded. It is a gain above the entry price, a loss below
/// it, and nothing at it.
pub proof fn law_unrealized_gain(
    entry_price: Double,
    highest_price: Double,
    quantity: Double,
    price: Double,
)
    requires
        entry_price.is_finite(),
        price.is_finite(),
        entry_price.units() > 0,
        price.units() >= 0,
    ensures
        ({
            let held = BotState::InPosition { entry_price, highest_price, quantity };
            let gain = gain_of(held, price);
            &&& exists|gap: Double, share: Double|
                {
                    &&& #[trigger] rounds_to(gap, price.units() - entry_price.units(), 1)
                    &&& #[trigger] rounds_to(
                        share,
                        gap.units() * pow2(1074),
                        entry_price.units(),
                    )
                    &&& share.is_finite() ==> rounds_to(
                        gain,
                        share.units() * (100 * pow2(1074)),
                        pow2(1074) as int,
                    )
                    &&& share.is_infinite() ==> gain == share
                }
            &&& gain.units() > 0 <==> price.units() > entry_price.units()
            &&& gain.units() < 0 <==> price.units() < entry_price.units()
        }),
{
    let gap = price.difference(entry_price);
    let share = gap.quotient(entry_price);
    let hundred = Double { bits: HUNDRED };
    let gain = share.product(hundred);
    let (u, e) = (pow2(1074), entry_price.units());
    law_parameters_are_their_numbers();
    lemma_pow2_pos(1074);
    lemma_gap(entry_price, price);
    law_quotient(gap, entry_price);
    let n = gap.units() * u;
    assert(gap.units() == 0 ==> n == 0) by (nonlinear_arith)
        requires
            n == gap.units() * u,
    ;
    lemma_sign(share, n, e as nat);
    if price.units() != e {
        lemma_gap_is_wide(entry_price, price);
        lemma_pow2_strictly_increases(53, 1074);
        let size = abs(gap.units());
        assert(size * u >= size * pow2(53)) by (nonlinear_arith)
            requires
                u >= pow2(53),
        ;
        assert(abs(n) == size * u) by {
            assert(gap.units() >= 0 ==> n >= 0) by (nonlinear_arith)
                requires
                    n == gap.units() * u,
            ;
            assert(gap.units() < 0 ==> n <= 0 && (-gap.units()) * u == -n) by (nonlinear_arith)
                requires
                    n == gap.units() * u,
            ;
        }
        assert(gap.units() > 0 ==> n > 0) by (nonlinear_arith)
            requires
                n == gap.units() * u,
                u > 0,
        ;
        assert(gap.units() < 0 ==> n < 0) by (nonlinear_arith)
            requires
                n == gap.units() * u,
                u > 0,
        ;
        lemma_not_zero(share, n, e as nat);
    }
    if share.is_finite() {
        law_product(share, hundred);
        let m = share.units() * (100 * u);
        assert(share.units() > 0 ==> m >= u) by (nonlinear_arith)
            requires
                m == share.units() * (100 * u),
                u > 0,
        ;
        assert(share.units() < 0 ==> m <= -u) by (nonlinear_arith)
            requires
                m == share.units() * (100 * u),
                u > 0,
        ;
        assert(share.units() == 0 ==> m == 0) by (nonlinear_arith)
            requires
                m == share.units() * (100 * u),
        ;
        lemma_sign(gain, m, u);
        if share.units() != 0 {
            lemma_not_zero(gain, m, u);
        }
    } else {
        assert(share.is_infinite());
        assert(gain == share);
    }
    assert(rounds_to(gap, price.units() - e, 1));
    assert(rounds_to(share, gap.units() * pow2(1074), e));
}

/// Without a position there is no gain.
pub proof fn law_no_position_no_gain(price: Double)
    ensures
        gain_of(BotState::Idle, price).bits == 0,
{
}

/// Whether `stop` is the stop under a highest price of `highest` units: `part` is the number
/// nearest to 0.005, `share` that nearest to what is left of one, and the stop that nearest to
/// their product with the price.
pub open spec fn is_stop(part: Double, share: Double, stop: Double, highest: int) -> bool {
    &&& rounds_to(part, (5 * pow2(1074)) as int, 1000)
    &&& rounds_to(share, pow2(1074) - part.units(), 1)
    &&& rounds_to(stop, highest * share.units(), pow2(1074) as int)
}

/// Where exactly the stop lies: at the highest price times the share that is left when the number
/// nearest to 0.005 is taken from one, each step rounded. A position is stopped exactly if the
/// price has come down from the highest one, this price included, to the stop or below it. Found are
/// the part, the share and the stop.
pub proof fn law_where_the_stop_lies(
    entry_price: Double,
    highest_price: Double,
    quantity: Double,
    price: Double,
    rsi: Double,
    bb_lower: Double,
) -> (found: (Double, Double, Double))
    requires
        price.is_finite(),
        highest_price.is_finite(),
    ensures
        ({
            let held = BotState::InPosition { entry_price, highest_price, quantity };
            let made = decision(held, price, rsi, bb_lower).1;
            let p = price.units();
            let h = if p > highest_price.units() {
                p
            } else {
                highest_price.units()
            };
            let (part, share, stop) = found;
            &&& is_stop(part, share, stop, h)
            &&& made is StopLoss <==> p < h && p <= stop.units()
        }),
{
    let highest = peak(highest_price, price);
    let part = Double { bits: TRAILING_STOP_PCT };
    let one = Double { bits: ONE };
    let share = stop_factor();
    let stop = highest.product(share);
    law_parameters_are_their_numbers();
    lemma_pow2_pos(1074);
    lemma_signed_rounds(false, (5 * pow2(1074)) as int, 1000);
    assert(abs((5 * pow2(1074)) as int) == 5 * pow2(1074));
    assert(part == signed(false, rounded(5 * pow2(1074), 1000)));
    law_difference(one, part);
    lemma_stop_factor();
    law_product(highest, share);
    law_order_is_by_value(highest_price, price);
    law_order_is_by_value(price, highest);
    law_order_is_by_value(price, stop);
    let p = price.units();
    let h = if p > highest_price.units() {
        p
    } else {
        highest_price.units()
    };
    assert(h == highest.units());
    let held = BotState::InPosition { entry_price, highest_price, quantity };
    let made = decision(held, price, rsi, bb_lower).1;
    assert(made is StopLoss <==> p < h && p <= stop.units());
    assert(rounds_to(part, (5 * pow2(1074)) as int, 1000));
    assert(rounds_to(share, pow2(1074) - part.units(), 1));
    assert(rounds_to(stop, h * share.units(), pow2(1074) as int));
    (part, share, stop)
}

/// A price that has come down from infinity, or to the opposite of it, is stopped.
pub proof fn law_infinite_prices_are_stopped(
    entry_price: Double,
    highest_price: Double,
    quantity: Double,
    price: Double,
    rsi: Double,
    bb_lower: Double,
)
    requires
        !price.is_nan(),
        !highest_price.is_nan(),
        price.units() < highest_price.units(),
        price.is_infinite() || highest_price.is_infinite(),
    ensures
        decision(
            (BotState::InPosition { entry_price, highest_price, quantity }),
            price,
            rsi,
            bb_lower,
        ).1 is StopLoss,
{
    let share = stop_factor();
    let stop = highest_price.product(share);
    lemma_stop_factor();
    lemma_parts(price.magnitude());
    lemma_parts(highest_price.magnitude());
    law_order_is_by_value(highest_price, price);
    law_order_is_by_value(price, highest_price);
    if highest_price.is_infinite() {
        assert(!highest_price.negative()) by {
            if highest_price.negative() && price.magnitude() < INFINITY_BITS {
                lemma_units_increase(price.magnitude(), INFINITY_BITS as nat);
            }
        }
        assert(stop == highest_price);
    } else {
        assert(price.negative()) by {
            if !price.negative() {
                lemma_units_increase(highest_price.magnitude(), INFINITY_BITS as nat);
            }
        }
        law_product(highest_price, share);
        assert(price.place() <= stop.place());
    }
}

} // verus!
