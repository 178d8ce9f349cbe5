//! One-minute candles, built live from trade prices.

use crate::clock::{candle_start, minute_of};
use crate::double::Double;
use vstd::prelude::*;

verus! {

/// The prices of one minute: first, highest, lowest and last, and when the minute began.
#[derive(Clone, Copy, Debug, PartialEq, Eq, Structural)]
pub struct Candle {
    pub open: Double,
    pub high: Double,
    pub low: Double,
    pub close: Double,
    pub time: i64,
}

/// A time at which no minute begins.
pub const NO_MINUTE: i64 = -1;

/// A candle that has seen one price.
pub open spec fn opened(price: Double, time: i64) -> Candle {
    Candle { open: price, high: price, low: price, close: price, time }
}

/// The candle before the first tick: it has seen no price, and its time is that of no minute.
pub open spec fn blank_candle() -> Candle {
    opened((Double { bits: 0 }), NO_MINUTE)
}

impl Candle {
    /// This candle after one more price in the same minute.
    pub open spec fn extended(self, price: Double) -> Candle {
        Candle {
            close: price,
            high: if self.high.is_below(price) {
                price
            } else {
                self.high
            },
            low: if price.is_below(self.low) {
                price
            } else {
                self.low
            },
            ..self
        }
    }

    /// The current candle after a tick at `millis`: a new one if a new minute has begun.
    pub open spec fn ticked(self, price: Double, millis: int) -> Candle {
        if self.time == minute_of(millis) {
            self.extended(price)
        } else {
            opened(price, minute_of(millis) as i64)
        }
    }

    /// The candle before the first tick.
    pub fn blank() -> (r: Candle)
        ensures
            r == blank_candle(),
    {
        let zero = Double { bits: 0 };
        Candle { open: zero, high: zero, low: zero, close: zero, time: NO_MINUTE }
    }

    /// Takes in the price of a tick.
    pub fn tick(&mut self, price: Double, millis: i64)
        ensures
            *final(self) == old(self).ticked(price, millis as int),
    {
        let start: i64 = candle_start(millis);
        if self.time != start {
            *self = Candle { open: price, high: price, low: price, close: price, time: start };
        } else {
            self.close = price;
            if price.gt(self.high) {
                self.high = price;
            }
            if price.lt(self.low) {
                self.low = price;
            }
        }
    }
}

/// The same candles in the opposite order.
pub fn reversed(candles: &Vec<Candle>) -> (r: Vec<Candle>)
    ensures
        r@ == candles@.reverse(),
{
    let mut r: Vec<Candle> = Vec::new();
    let mut i: usize = candles.len();
    while i > 0
        invariant
            i <= candles@.len(),
            r@ == candles@.reverse().take(candles@.len() - i),
        decreases i,
    {
        i = i - 1;
        r.push(candles[i]);
    }
    r
}

/// The closing prices of candles, in order.
pub fn closes(candles: &Vec<Candle>) -> (r: Vec<Double>)
    ensures
        r@ == candles@.map_values(|c: Candle| c.close),
{
    let mut r: Vec<Double> = Vec::new();
    let mut i: usize = 0;
    while i < candles.len()
        invariant
            i <= candles@.len(),
            r@ == candles@.map_values(|c: Candle| c.close).take(i as int),
        decreases candles@.len() - i,
    {
        r.push(candles[i].close);
        i = i + 1;
    }
    r
}

/// The candle of a minute in which these prices were seen, in this order.
pub open spec fn minute_candle(prices: Seq<Double>, time: i64) -> Candle
    recommends
        prices.len() > 0,
    decreases prices.len(),
{
    if prices.len() <= 1 {
        opened(prices[0], time)
    } else {
        minute_candle(prices.drop_last(), time).extended(prices.last())
    }
}

/// The current candle after a sequence of ticks, each a price and its time in milliseconds.
pub open spec fn after_ticks(candle: Candle, ticks: Seq<(Double, int)>) -> Candle
    decreases ticks.len(),
{
    if ticks.len() == 0 {
        candle
    } else {
        after_ticks(candle, ticks.drop_last()).ticked(ticks.last().0, ticks.last().1)
    }
}

/// A candle opens at the first price of its minute and closes at the last one; its high and its
/// low are prices of that minute, and none of them lies above the high or below the low.
pub proof fn law_candle_summarises_its_minute(prices: Seq<Double>, time: i64)
    requires
        prices.len() > 0,
        forall|i: int| 0 <= i < prices.len() ==> !(#[trigger] prices[i]).is_nan(),
    ensures
        minute_candle(prices, time).time == time,
        minute_candle(prices, time).open == prices.first(),
        minute_candle(prices, time).close == prices.last(),
        prices.contains(minute_candle(prices, time).high),
        prices.contains(minute_candle(prices, time).low),
        forall|i: int|
            0 <= i < prices.len() ==> {
                &&& !minute_candle(prices, time).high.is_below(#[trigger] prices[i])
                &&& !prices[i].is_below(minute_candle(prices, time).low)
            },
    decreases prices.len(),
{
    let candle = minute_candle(prices, time);
    if prices.len() == 1 {
        assert(prices[0] == candle.high);
    } else {
        let init = prices.drop_last();
        let before = minute_candle(init, time);
        law_candle_summarises_its_minute(init, time);
        let h = choose|i: int| 0 <= i < init.len() && init[i] == before.high;
        let l = choose|i: int| 0 <= i < init.len() && init[i] == before.low;
        assert(prices[h] == before.high && prices[l] == before.low);
        assert(prices[prices.len() - 1] == prices.last());
        assert forall|i: int| 0 <= i < prices.len() implies {
            &&& !candle.high.is_below(#[trigger] prices[i])
            &&& !prices[i].is_below(candle.low)
        } by {
            if i < init.len() {
                assert(init[i] == prices[i]);
            }
        }
    }
}

/// However the ticks of a minute arrive after a candle of another minute, the current candle is
/// the candle of exactly their prices.
pub proof fn law_ticks_of_a_minute_build_its_candle(
    candle: Candle,
    ticks: Seq<(Double, int)>,
    time: i64,
)
    requires
        ticks.len() > 0,
        candle.time != time,
        forall|i: int| 0 <= i < ticks.len() ==> minute_of((#[trigger] ticks[i]).1) == time,
    ensures
        after_ticks(candle, ticks) == minute_candle(
            ticks.map_values(|t: (Double, int)| t.0),
            time,
        ),
    decreases ticks.len(),
{
    let prices = ticks.map_values(|t: (Double, int)| t.0);
    let init = ticks.drop_last();
    assert(prices.drop_last() =~= init.map_values(|t: (Double, int)| t.0));
    assert(minute_of(ticks[ticks.len() - 1].1) == time);
    if ticks.len() == 1 {
        assert(after_ticks(candle, init) == candle);
    } else {
        law_ticks_of_a_minute_build_its_candle(candle, init, time);
        lemma_minute_candle_time(prices.drop_last(), time);
    }
}

proof fn lemma_minute_candle_time(prices: Seq<Double>, time: i64)
    ensures
        minute_candle(prices, time).time == time,
    decreases prices.len(),
{
    if prices.len() > 1 {
        lemma_minute_candle_time(prices.drop_last(), time);
    }
}

/// Whenever the first tick comes, it opens a candle of its own: the blank candle belongs to no
/// minute.
pub proof fn law_first_tick_opens_a_candle(price: Double, millis: int)
    ensures
        minute_of(millis) != blank_candle().time,
        blank_candle().ticked(price, millis) == opened(price, minute_of(millis) as i64),
{
}

/// Candles that are given the newest first come out the oldest first.
pub proof fn law_reversed_candles_are_chronological(candles: Seq<Candle>)
    requires
        forall|i: int, j: int| 0 <= i < j < candles.len() ==> candles[i].time > candles[j].time,
    ensures
        forall|i: int, j: int|
            0 <= i < j < candles.len() ==> candles.reverse()[i].time < candles.reverse()[j].time,
{
}

} // verus!
