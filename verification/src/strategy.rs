//! When to buy, when to sell, and at which gain.

use crate::config::{HUNDRED, ONE, RSI_BUY, RSI_CRASH, RSI_SELL, TRADE_CAPITAL, TRAILING_STOP_PCT};
use crate::double::Double;
use vstd::prelude::*;

verus! {

/// Whether the bot holds a position, and since when at which prices.
#[derive(Clone, Copy, Debug, PartialEq, Eq, Structural)]
pub enum BotState {
    Idle,
    InPosition { entry_price: Double, highest_price: Double, quantity: Double },
}

/// What the bot does at a tick.
#[derive(Clone, Copy, Debug, PartialEq, Eq, Structural)]
pub enum Decision {
    /// Stay out.
    Scan,
    /// Open a position.
    Buy { quantity: Double },
    /// Stay in.
    Hold,
    /// Close the position because the price has come down to the trailing stop.
    StopLoss { quantity: Double, profit: Double },
    /// Close the position because momentum has turned overbought.
    TakeProfit { quantity: Double, profit: Double },
}

/// Oversold and below the lower band, or deeply oversold.
pub open spec fn buy_signal(price: Double, rsi: Double, bb_lower: Double) -> bool {
    ||| rsi.is_below(Double { bits: RSI_BUY }) && price.is_below(bb_lower)
    ||| rsi.is_below(Double { bits: RSI_CRASH })
}

/// Overbought.
pub open spec fn sell_signal(rsi: Double) -> bool {
    (Double { bits: RSI_SELL }).is_below(rsi)
}

/// The quantity that the trade capital buys.
pub open spec fn position_size(price: Double) -> Double {
    (Double { bits: TRADE_CAPITAL }).quotient(price)
}

/// The highest price of a position after one more price.
pub open spec fn peak(highest: Double, price: Double) -> Double {
    if highest.is_below(price) {
        price
    } else {
        highest
    }
}

/// The share of the highest price that the stop lies at: one, less the stop's distance.
pub open spec fn stop_factor() -> Double {
    (Double { bits: ONE }).difference(Double { bits: TRAILING_STOP_PCT })
}

/// The trailing stop under the highest price.
pub open spec fn stop_price(highest: Double) -> Double {
    highest.product(stop_factor())
}

/// The price has come down from the highest one, to the stop or below it.
pub open spec fn stop_signal(highest: Double, price: Double) -> bool {
    price.is_below(highest) && price.is_at_most(stop_price(highest))
}

/// The profit of closing a position.
pub open spec fn profit_of(entry_price: Double, price: Double, quantity: Double) -> Double {
    price.difference(entry_price).product(quantity)
}

/// The gain over the entry price, in percent.
pub open spec fn gain_percent(entry_price: Double, price: Double) -> Double {
    price.difference(entry_price).quotient(entry_price).product(Double { bits: HUNDRED })
}

/// The decision at a tick, and the state after it.
pub open spec fn decision(state: BotState, price: Double, rsi: Double, bb_lower: Double) -> (
    BotState,
    Decision,
) {
    match state {
        BotState::Idle => if buy_signal(price, rsi, bb_lower) {
            let quantity = position_size(price);
            (
                BotState::InPosition { entry_price: price, highest_price: price, quantity },
                Decision::Buy { quantity },
            )
        } else {
            (state, Decision::Scan)
        },
        BotState::InPosition { entry_price, highest_price, quantity } => {
            let highest = peak(highest_price, price);
            let profit = profit_of(entry_price, price, quantity);
            if stop_signal(highest, price) {
                (BotState::Idle, Decision::StopLoss { quantity, profit })
            } else if sell_signal(rsi) {
                (BotState::Idle, Decision::TakeProfit { quantity, profit })
            } else {
                (
                    BotState::InPosition { entry_price, highest_price: highest, quantity },
                    Decision::Hold,
                )
            }
        },
    }
}

/// Decides what to do at a tick.
pub fn decide(state: BotState, price: Double, rsi: Double, bb_lower: Double) -> (r: (
    BotState,
    Decision,
))
    ensures
        r == decision(state, price, rsi, bb_lower),
{
    match state {
        BotState::Idle => {
            let oversold: bool = rsi.lt(Double { bits: RSI_BUY }) && price.lt(bb_lower);
            if oversold || rsi.lt(Double { bits: RSI_CRASH }) {
                let quantity: Double = (Double { bits: TRADE_CAPITAL }).over(price);
                (
                    BotState::InPosition { entry_price: price, highest_price: price, quantity },
                    Decision::Buy { quantity },
                )
            } else {
                (BotState::Idle, Decision::Scan)
            }
        },
        BotState::InPosition { entry_price, highest_price, quantity } => {
            let highest: Double = if price.gt(highest_price) {
                price
            } else {
                highest_price
            };
            let factor: Double = (Double { bits: ONE }).minus(Double { bits: TRAILING_STOP_PCT });
            let stop: Double = highest.times(factor);
            let profit: Double = price.minus(entry_price).times(quantity);
            if price.lt(highest) && price.le(stop) {
                (BotState::Idle, Decision::StopLoss { quantity, profit })
            } else if rsi.gt(Double { bits: RSI_SELL }) {
                (BotState::Idle, Decision::TakeProfit { quantity, profit })
            } else {
                (
                    BotState::InPosition { entry_price, highest_price: highest, quantity },
                    Decision::Hold,
                )
            }
        },
    }
}

/// The unrealized gain of a state at a price, in percent; nothing without a position.
pub open spec fn gain_of(state: BotState, price: Double) -> Double {
    match state {
        BotState::Idle => Double { bits: 0 },
        BotState::InPosition { entry_price, .. } => gain_percent(entry_price, price),
    }
}

/// The unrealized gain at a price, in percent.
pub fn unrealized_gain(state: BotState, price: Double) -> (r: Double)
    ensures
        r == gain_of(state, price),
{
    match state {
        BotState::Idle => Double { bits: 0 },
        BotState::InPosition { entry_price, .. } => price.minus(entry_price).over(
            entry_price,
        ).times(Double { bits: HUNDRED }),
    }
}

} // verus!
