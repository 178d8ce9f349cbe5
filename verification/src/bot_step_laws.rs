//! What each step of the bot does: the candle it builds, the indicators it goes by, what it shows,
//! stores, records, trades and asks for.

use crate::bot::{actions, latest, save_all, Action, ActionView, Bot, BotView, Event, EventView};
use crate::bot::{Indicators, Outcome, Phase, PhaseView};
use crate::bot_laws::{after, course, Happening};
use crate::candle::{after_ticks, blank_candle, law_candle_summarises_its_minute, minute_candle};
use crate::candle::{law_ticks_of_a_minute_build_its_candle, Candle};
use crate::clock::{law_minute, minute_of, within_minute, Moment};
use crate::dashboard::DashboardView;
use crate::db::{init_statements, log_trade_statement, prune_statement, recent_candles_statement};
use crate::db::{save_candle_statement, statements};
use crate::double::{law_order_is_by_value, Double};
use crate::orders::{Order, Side};
use crate::strategy::{decision, gain_of, Decision};
use crate::text::decimal;
use vstd::prelude::*;

verus! {

/// Milliseconds since the epoch at a point in time.
pub open spec fn millis_at(at: Moment) -> int {
    at.secs * 1000 + at.nanos as int / 1_000_000
}

/// At the beginning there is no position, and nothing has been asked for.
pub proof fn law_beginning()
    ensures
        BotView::initial().state is Idle,
        BotView::initial().phase is New,
        ({
            let shown = DashboardView::initial();
            &&& shown.status == "Starting..."@
            &&& shown.logs.len() == 0
            &&& shown.price.bits == 0 && shown.rsi.bits == 0
            &&& shown.bb_lower.bits == 0 && shown.bb_upper.bits == 0
            &&& shown.entry_price.bits == 0
            &&& shown.unrealized_pl.bits == 0 && shown.realized_pl.bits == 0
            &&& shown.wallet_usdt.bits == 0 && shown.wallet_btc.bits == 0
        }),
{
}

/// When the bot is started, the database is prepared before the candles are asked for.
pub proof fn law_start(bot: BotView, dashboard: DashboardView)
    requires
        bot.phase is New,
    ensures
        ({
            let step = bot.step(dashboard, EventView::Started);
            &&& step.actions.len() == 2
            &&& step.actions[0] == ActionView::Prepare(init_statements())
            &&& step.actions[1] == ActionView::FetchCandles
            &&& step.bot == (BotView { phase: PhaseView::AwaitingCandles, ..bot })
            &&& step.dashboard == dashboard
        }),
{
}

/// Of the exchange's candles, which come the newest first, the newest fifty are used, the oldest
/// of these first. Without any the rounds begin at once.
pub proof fn law_exchange_candles(
    bot: BotView,
    dashboard: DashboardView,
    reply: Option<Seq<Candle>>,
)
    requires
        bot.phase is AwaitingCandles,
    ensures
        ({
            let step = bot.step(dashboard, EventView::Candles(reply));
            &&& step.actions.len() == 1
            &&& step.dashboard == dashboard
            &&& step.bot.state == bot.state && step.bot.candle == bot.candle
            &&& reply is None ==> step.actions[0] == ActionView::Pause(0) && step.bot.phase
                == PhaseView::Resting
            &&& reply matches Some(list) ==> (step.actions[0] matches ActionView::Compute(prices)
                && step.bot.phase matches PhaseView::WarmingUp { candles } && {
                let used: int = if list.len() < 50 {
                    list.len() as int
                } else {
                    50
                };
                &&& prices.len() == used && candles.len() == used
                &&& forall|i: int|
                    0 <= i < used ==> #[trigger] candles[i] == list[used - 1 - i]
                &&& forall|i: int|
                    0 <= i < used ==> #[trigger] prices[i] == list[used - 1 - i].close
            })
        }),
{
}

/// Each candle of the exchange is stored with its own indicators, in order; what was stored is
/// logged and printed, and the rounds begin.
pub proof fn law_exchange_candles_are_stored(
    bot: BotView,
    dashboard: DashboardView,
    candles: Seq<Candle>,
    outputs: Seq<Indicators>,
    at: Moment,
)
    requires
        bot.phase == (PhaseView::WarmingUp { candles }),
        outputs.len() == candles.len(),
    ensures
        ({
            let step = bot.step(dashboard, EventView::Computed { outputs, at });
            let n = candles.len() as int;
            let line = at.time_of_day() + " | Synced "@ + decimal(candles.len())
                + " candles to DB"@;
            &&& step.actions.len() == n + 2
            &&& forall|i: int|
                0 <= i < n ==> #[trigger] step.actions[i] == ActionView::Save(
                    save_candle_statement(
                        candles[i],
                        outputs[i].rsi,
                        outputs[i].bb_lower,
                        outputs[i].bb_upper,
                    ),
                )
            &&& step.actions[n] == ActionView::Print(line)
            &&& step.actions[n + 1] == ActionView::Pause(0)
            &&& step.dashboard.logs.len() > 0 && step.dashboard.logs[0] == line
            &&& step.dashboard == (DashboardView { logs: step.dashboard.logs, ..dashboard })
            &&& step.bot == (BotView { phase: PhaseView::Resting, ..bot })
        }),
{
    let n = candles.len() as int;
    let saved = save_all(candles, outputs);
    let step = bot.step(dashboard, EventView::Computed { outputs, at });
    assert forall|i: int| 0 <= i < n implies #[trigger] step.actions[i] == ActionView::Save(
        save_candle_statement(
            candles[i],
            outputs[i].rsi,
            outputs[i].bb_lower,
            outputs[i].bb_upper,
        ),
    ) by {
        assert(step.actions[i] == saved[i]);
    }
    reveal_strlit(" | ");
    reveal_strlit("Synced ");
    reveal_strlit(" | Synced ");
    assert(" | "@ + "Synced "@ =~= " | Synced "@);
    let msg = "Synced "@ + decimal(candles.len()) + " candles to DB"@;
    assert(at.time_of_day() + " | "@ + msg =~= at.time_of_day() + " | Synced "@ + decimal(
        candles.len(),
    ) + " candles to DB"@);
}

/// A round begins with deleting old candles if more than five minutes have passed since the last
/// time, and with reading the wallet if more than one minute has; then the price is asked for.
pub proof fn law_round_begins(
    bot: BotView,
    dashboard: DashboardView,
    since_prune: nat,
    since_wallet: nat,
    at: Moment,
)
    requires
        bot.phase is Resting,
    ensures
        ({
            let step = bot.step(dashboard, EventView::Woke { since_prune, since_wallet, at });
            let prune = since_prune > 5 * 60 * 1_000_000_000;
            let wallet = since_wallet > 60 * 1_000_000_000;
            let line = at.time_of_day() + " | Pruned old DB data"@;
            let pruned: int = if prune {
                2
            } else {
                0
            };
            let read: int = if wallet {
                1
            } else {
                0
            };
            &&& step.actions.len() == pruned + read + 1
            &&& step.actions.last() == ActionView::FetchPrice
            &&& wallet ==> step.actions[pruned] == ActionView::FetchWallet
            &&& prune ==> step.actions[0] == ActionView::Prune(prune_statement(at))
                && step.actions[1] == ActionView::Print(line) && step.dashboard.logs.len() > 0
                && step.dashboard.logs[0] == line
            &&& !prune ==> step.dashboard == dashboard
            &&& step.dashboard == (DashboardView { logs: step.dashboard.logs, ..dashboard })
            &&& step.bot == (BotView { phase: PhaseView::AwaitingPrice, ..bot })
        }),
{
    reveal_strlit(" | ");
    reveal_strlit("Pruned old DB data");
    reveal_strlit(" | Pruned old DB data");
    assert(" | "@ + "Pruned old DB data"@ =~= " | Pruned old DB data"@);
    assert(at.time_of_day() + " | "@ + "Pruned old DB data"@ =~= at.time_of_day()
        + " | Pruned old DB data"@);
}

/// Without a price a round is over: the next one begins in five seconds.
pub proof fn law_no_price(bot: BotView, dashboard: DashboardView, at: Moment)
    requires
        bot.phase is AwaitingPrice,
    ensures
        ({
            let step = bot.step(dashboard, EventView::Price { price: None, at });
            &&& step.actions.len() == 1 && step.actions[0] == ActionView::Pause(5)
            &&& step.bot == (BotView { phase: PhaseView::Resting, ..bot })
            &&& step.dashboard == dashboard
        }),
{
}

/// Whether `a` lies above `b`.
pub open spec fn above(a: Double, b: Double) -> bool {
    !a.is_nan() && !b.is_nan() && a.units() > b.units()
}

/// A price goes into the candle of its minute. Within the minute of the current candle it is the
/// new close, and the high and the low give way to it where it lies beyond them; else it opens a
/// candle of its own. The candle is stored before the last fifty are read.
pub proof fn law_price_goes_into_the_candle(
    bot: BotView,
    dashboard: DashboardView,
    price: Double,
    at: Moment,
)
    requires
        bot.phase is AwaitingPrice,
        at.valid(),
    ensures
        ({
            let step = bot.step(dashboard, EventView::Price { price: Some(price), at });
            let (old_candle, candle) = (bot.candle, step.bot.candle);
            let zero = Double { bits: 0 };
            &&& candle.time as int % 60_000 == 0
            &&& within_minute(millis_at(at), candle.time as int)
            &&& candle.close == price
            &&& old_candle.time == candle.time ==> {
                &&& candle.open == old_candle.open
                &&& candle.high == if above(price, old_candle.high) {
                    price
                } else {
                    old_candle.high
                }
                &&& candle.low == if above(old_candle.low, price) {
                    price
                } else {
                    old_candle.low
                }
            }
            &&& old_candle.time != candle.time ==> {
                &&& candle.open == price
                &&& candle.high == price
                &&& candle.low == price
            }
            &&& step.actions.len() == 2
            &&& step.actions[0] == ActionView::Save(
                save_candle_statement(candle, zero, zero, zero),
            )
            &&& step.actions[1] == ActionView::ReadCandles(recent_candles_statement(50))
            &&& step.bot.phase == (PhaseView::AwaitingHistory { price })
            &&& step.bot.state == bot.state
            &&& step.dashboard == dashboard
        }),
{
    law_minute(millis_at(at));
    if !price.is_nan() && !bot.candle.high.is_nan() {
        law_order_is_by_value(bot.candle.high, price);
    }
    if !price.is_nan() && !bot.candle.low.is_nan() {
        law_order_is_by_value(price, bot.candle.low);
    }
}

/// The prices that have come in over a course of events, each with its time in milliseconds.
pub open spec fn ticks(happenings: Seq<Happening>) -> Seq<(Double, int)>
    decreases happenings.len(),
{
    if happenings.len() == 0 {
        seq![]
    } else {
        let before = happenings.drop_last();
        match happenings.last() {
            Happening::Step(EventView::Price { price: Some(price), at }) => if course(
                before,
            ).bot.phase is AwaitingPrice {
                ticks(before).push((price, millis_at(at)))
            } else {
                ticks(before)
            },
            _ => ticks(before),
        }
    }
}

/// Whether the calendar has the times of all events.
pub open spec fn all_valid(happenings: Seq<Happening>) -> bool {
    forall|i: int|
        0 <= i < happenings.len() ==> ((#[trigger] happenings[i]) matches Happening::Step(event)
            ==> event.valid())
}

proof fn lemma_ticks_build_the_candle(happenings: Seq<Happening>)
    requires
        all_valid(happenings),
    ensures
        course(happenings).bot.candle == after_ticks(blank_candle(), ticks(happenings)),
        forall|i: int|
            0 <= i < ticks(happenings).len() ==> -9_000_000_000_000_000 < (#[trigger] ticks(
                happenings,
            )[i]).1 < 9_000_000_000_000_000,
    decreases happenings.len(),
{
    if happenings.len() > 0 {
        let init = happenings.drop_last();
        assert forall|i: int| 0 <= i < init.len() implies ((#[trigger] init[i]) matches
            Happening::Step(event) ==> event.valid()) by {
            assert(init[i] == happenings[i]);
        }
        lemma_ticks_build_the_candle(init);
        reveal(after);
        let before = ticks(init);
        assert(happenings[happenings.len() - 1] == happenings.last());
        match happenings.last() {
            Happening::Step(EventView::Price { price: Some(price), at }) => {
                let more = before.push((price, millis_at(at)));
                assert(more.drop_last() =~= before);
            },
            _ => {},
        }
    }
}

proof fn lemma_after_ticks_time(candle: Candle, list: Seq<(Double, int)>)
    requires
        list.len() > 0,
        -9_000_000_000_000_000 < list.last().1 < 9_000_000_000_000_000,
    ensures
        after_ticks(candle, list).time == minute_of(list.last().1),
{
}

proof fn lemma_after_ticks_concat(candle: Candle, a: Seq<(Double, int)>, b: Seq<(Double, int)>)
    ensures
        after_ticks(candle, a + b) == after_ticks(after_ticks(candle, a), b),
    decreases b.len(),
{
    if b.len() == 0 {
        assert(a + b =~= a);
    } else {
        assert((a + b).drop_last() =~= a + b.drop_last());
        lemma_after_ticks_concat(candle, a, b.drop_last());
    }
}

/// The live candle, over any course of events: after the prices that came in during one minute,
/// from the `from`-th on, the current candle is that of the minute. It opens at the first of
/// these prices and closes at the last; its high and its low are among them, and none of them
/// lies above the high or below the low.
pub proof fn law_live_candle(happenings: Seq<Happening>, from: int, minute: i64)
    requires
        all_valid(happenings),
        0 <= from < ticks(happenings).len(),
        minute as int % 60_000 == 0,
        forall|i: int|
            from <= i < ticks(happenings).len() ==> within_minute(
                (#[trigger] ticks(happenings)[i]).1,
                minute as int,
            ) && !ticks(happenings)[i].0.is_nan(),
        from > 0 ==> !within_minute(ticks(happenings)[from - 1].1, minute as int),
    ensures
        ({
            let list = ticks(happenings);
            let candle = course(happenings).bot.candle;
            &&& candle.time == minute
            &&& candle.open == list[from].0
            &&& candle.close == list.last().0
            &&& exists|i: int| from <= i < list.len() && candle.high == (#[trigger] list[i]).0
            &&& exists|i: int| from <= i < list.len() && candle.low == (#[trigger] list[i]).0
            &&& forall|i: int|
                from <= i < list.len() ==> candle.low.units() <= (#[trigger] list[i]).0.units()
                    <= candle.high.units()
        }),
{
    let list = ticks(happenings);
    let (first, own) = (list.take(from), list.skip(from));
    lemma_ticks_build_the_candle(happenings);
    assert(first + own =~= list);
    lemma_after_ticks_concat(blank_candle(), first, own);
    let before = after_ticks(blank_candle(), first);
    assert(before.time != minute) by {
        if from > 0 {
            lemma_after_ticks_time(blank_candle(), first);
            law_minute(list[from - 1].1);
        }
    }
    assert forall|i: int| 0 <= i < own.len() implies minute_of((#[trigger] own[i]).1) == minute by {
        assert(own[i] == list[from + i]);
        law_minute(list[from + i].1);
    }
    law_ticks_of_a_minute_build_its_candle(before, own, minute);
    let prices = own.map_values(|t: (Double, int)| t.0);
    assert forall|i: int| 0 <= i < prices.len() implies !(#[trigger] prices[i]).is_nan() by {
        assert(prices[i] == list[from + i].0);
    }
    law_candle_summarises_its_minute(prices, minute);
    let candle = minute_candle(prices, minute);
    let (h, l) = (
        choose|i: int| 0 <= i < prices.len() && prices[i] == candle.high,
        choose|i: int| 0 <= i < prices.len() && prices[i] == candle.low,
    );
    assert(candle.high == list[from + h].0);
    assert(candle.low == list[from + l].0);
    assert forall|i: int| from <= i < list.len() implies candle.low.units() <= (
    #[trigger] list[i]).0.units() <= candle.high.units() by {
        assert(prices[i - from] == list[i].0);
        law_order_is_by_value(candle.high, list[i].0);
        law_order_is_by_value(list[i].0, candle.low);
    }
}

/// The stored candles come the newest first, and their closing prices are evaluated from the
/// oldest on; a failed read counts as none.
pub proof fn law_history_is_evaluated(
    bot: BotView,
    dashboard: DashboardView,
    price: Double,
    rows: Option<Seq<Candle>>,
)
    requires
        bot.phase == (PhaseView::AwaitingHistory { price }),
    ensures
        ({
            let step = bot.step(dashboard, EventView::History(rows));
            &&& step.actions.len() == 1
            &&& step.actions[0] matches ActionView::Compute(prices) && {
                &&& rows is None ==> prices.len() == 0
                &&& rows matches Some(list) ==> prices.len() == list.len() && forall|i: int|
                    0 <= i < list.len() ==> #[trigger] prices[i] == list[list.len() - 1 - i].close
            }
            &&& step.bot == (BotView { phase: PhaseView::AwaitingIndicators { price }, ..bot })
            &&& step.dashboard == dashboard
        }),
{
}

/// A tick is evaluated by the indicators at the current candle, which are the last ones computed:
/// they are shown, stored with the current candle, and decided on.
pub proof fn law_tick_goes_by_the_last_indicators(
    bot: BotView,
    dashboard: DashboardView,
    price: Double,
    outputs: Seq<Indicators>,
    at: Moment,
)
    requires
        bot.phase == (PhaseView::AwaitingIndicators { price }),
        outputs.len() > 0,
    ensures
        ({
            let step = bot.step(dashboard, EventView::Computed { outputs, at });
            let now = outputs[outputs.len() - 1];
            &&& step.dashboard.rsi == now.rsi
            &&& step.dashboard.bb_lower == now.bb_lower
            &&& step.dashboard.bb_upper == now.bb_upper
            &&& step.actions.len() > 0
            &&& step.actions[0] == ActionView::Save(
                save_candle_statement(bot.candle, now.rsi, now.bb_lower, now.bb_upper),
            )
            &&& step.bot.state == decision(bot.state, price, now.rsi, now.bb_lower).0
            &&& carried_out(
                step,
                dashboard,
                decision(bot.state, price, now.rsi, now.bb_lower).1,
                price,
                at,
            )
        }),
{
    lemma_carried_out(bot, dashboard, price, outputs, at);
}

/// Whatever was computed for earlier candles makes no difference: a tick is evaluated as if only
/// the last indicators had been computed. So one more output is the one that counts.
pub proof fn law_one_more_output_is_the_one_used(
    bot: BotView,
    dashboard: DashboardView,
    price: Double,
    outputs: Seq<Indicators>,
    more: Indicators,
    at: Moment,
)
    requires
        bot.phase == (PhaseView::AwaitingIndicators { price }),
    ensures
        bot.step(dashboard, EventView::Computed { outputs: outputs.push(more), at }) == bot.step(
            dashboard,
            EventView::Computed { outputs: seq![more], at },
        ),
        bot.step(
            dashboard,
            EventView::Computed { outputs: outputs.push(more), at },
        ).dashboard.rsi == more.rsi,
{
    assert(outputs.push(more).last() == more);
}

/// Without any candles a tick is evaluated by indicators of zero.
pub proof fn law_tick_without_candles(
    bot: BotView,
    dashboard: DashboardView,
    price: Double,
    at: Moment,
)
    requires
        bot.phase == (PhaseView::AwaitingIndicators { price }),
    ensures
        ({
            let zero = Double { bits: 0 };
            let none = Indicators { rsi: zero, bb_lower: zero, bb_upper: zero };
            bot.step(dashboard, EventView::Computed { outputs: seq![], at }) == bot.step(
                dashboard,
                EventView::Computed { outputs: seq![none], at },
            )
        }),
{
}

/// Whether a decision at a price is carried out in a step: what is traded, recorded, printed and
/// shown.
pub open spec fn carried_out(
    step: Outcome,
    before: DashboardView,
    made: Decision,
    price: Double,
    at: Moment,
) -> bool {
    let n = step.actions.len() as int;
    let shown = step.dashboard;
    let stamp = at.time_of_day();
    &&& shown.price == price
    &&& shown.wallet_usdt == before.wallet_usdt && shown.wallet_btc == before.wallet_btc
    &&& step.actions.last() == ActionView::Pause(5)
    &&& match made {
        Decision::Scan => {
            &&& n == 2
            &&& shown.status == "IDLE (Scanning)"@
            &&& shown.entry_price == before.entry_price
            &&& shown.realized_pl == before.realized_pl
            &&& shown.logs == before.logs
        },
        Decision::Hold => {
            &&& n == 2
            &&& shown.status == "HOLDING"@
            &&& shown.entry_price == before.entry_price
            &&& shown.realized_pl == before.realized_pl
            &&& shown.logs == before.logs
        },
        Decision::Buy { quantity } => {
            let line = stamp + " | BUY SIGNAL @ $"@ + price.fixed();
            &&& n == 4
            &&& step.actions[1] == ActionView::Print(line)
            &&& step.actions[2] == ActionView::Trade(Order { side: Side::Buy, price, quantity })
            &&& shown.status == "IN POSITION"@
            &&& shown.entry_price == price
            &&& shown.realized_pl == before.realized_pl
            &&& shown.logs.len() > 0 && shown.logs[0] == line
        },
        Decision::StopLoss { quantity, profit } => {
            let line = stamp + " | STOP LOSS @ $"@ + price.fixed();
            sold_out(step, before, line, price, quantity, profit, at)
        },
        Decision::TakeProfit { quantity, profit } => {
            let line = stamp + " | PROFIT TAKE @ $"@ + price.fixed();
            sold_out(step, before, line, price, quantity, profit, at)
        },
    }
}

/// Whether a step closes a position: the line is printed and logged, the sale is recorded with its
/// profit and then made, and the dashboard shows no position and the profit added.
pub open spec fn sold_out(
    step: Outcome,
    before: DashboardView,
    line: Seq<char>,
    price: Double,
    quantity: Double,
    profit: Double,
    at: Moment,
) -> bool {
    let shown = step.dashboard;
    &&& step.actions.len() == 5
    &&& step.actions[1] == ActionView::Print(line)
    &&& step.actions[2] == ActionView::Record(
        log_trade_statement("sell"@, price, quantity, profit, at),
    )
    &&& step.actions[3] == ActionView::Trade(Order { side: Side::Sell, price, quantity })
    &&& shown.status == "IDLE"@
    &&& shown.entry_price.bits == 0
    &&& shown.realized_pl == before.realized_pl.sum(profit)
    &&& shown.logs.len() > 0 && shown.logs[0] == line
}

proof fn lemma_carried_out(
    bot: BotView,
    dashboard: DashboardView,
    price: Double,
    outputs: Seq<Indicators>,
    at: Moment,
)
    requires
        bot.phase == (PhaseView::AwaitingIndicators { price }),
    ensures
        ({
            let now = latest(outputs);
            carried_out(
                bot.step(dashboard, EventView::Computed { outputs, at }),
                dashboard,
                decision(bot.state, price, now.rsi, now.bb_lower).1,
                price,
                at,
            )
        }),
{
    let stamp = at.time_of_day();
    reveal_strlit(" | ");
    reveal_strlit("BUY SIGNAL @ $");
    reveal_strlit(" | BUY SIGNAL @ $");
    reveal_strlit("STOP LOSS @ $");
    reveal_strlit(" | STOP LOSS @ $");
    reveal_strlit("PROFIT TAKE @ $");
    reveal_strlit(" | PROFIT TAKE @ $");
    assert(" | "@ + "BUY SIGNAL @ $"@ =~= " | BUY SIGNAL @ $"@);
    assert(" | "@ + "STOP LOSS @ $"@ =~= " | STOP LOSS @ $"@);
    assert(" | "@ + "PROFIT TAKE @ $"@ =~= " | PROFIT TAKE @ $"@);
    assert(stamp + " | "@ + ("BUY SIGNAL @ $"@ + price.fixed()) =~= stamp
        + " | BUY SIGNAL @ $"@ + price.fixed());
    assert(stamp + " | "@ + ("STOP LOSS @ $"@ + price.fixed()) =~= stamp
        + " | STOP LOSS @ $"@ + price.fixed());
    assert(stamp + " | "@ + ("PROFIT TAKE @ $"@ + price.fixed()) =~= stamp
        + " | PROFIT TAKE @ $"@ + price.fixed());
}

/// The unrealized gain that a tick leaves on the dashboard is that of the position before the
/// tick; the candle stays, and the bot rests.
pub proof fn law_tick_shows_the_gain_of_the_position(
    bot: BotView,
    dashboard: DashboardView,
    price: Double,
    outputs: Seq<Indicators>,
    at: Moment,
)
    requires
        bot.phase == (PhaseView::AwaitingIndicators { price }),
    ensures
        ({
            let step = bot.step(dashboard, EventView::Computed { outputs, at });
            &&& step.dashboard.unrealized_pl == gain_of(bot.state, price)
            &&& step.bot.candle == bot.candle
            &&& step.bot.phase == PhaseView::Resting
        }),
{
}

/// An event is seen as it happened.
pub proof fn law_events_are_seen_as_they_are(event: Event)
    ensures
        match event {
            Event::Started => event@ == EventView::Started,
            Event::Candles(None) => event@ == EventView::Candles(None),
            Event::Candles(Some(list)) => event@ == EventView::Candles(Some(list@)),
            Event::Computed { outputs, at } => event@ == (EventView::Computed {
                outputs: outputs@,
                at,
            }),
            Event::Woke { since_prune, since_wallet, at } => event@ == (EventView::Woke {
                since_prune: since_prune as nat,
                since_wallet: since_wallet as nat,
                at,
            }),
            Event::Price { price, at } => event@ == (EventView::Price { price, at }),
            Event::History(None) => event@ == EventView::History(None),
            Event::History(Some(list)) => event@ == EventView::History(Some(list@)),
        },
{
}

/// An action is seen as it is to be done.
pub proof fn law_actions_are_seen_as_they_are(action: Action)
    ensures
        match action {
            Action::Prepare(list) => action@ == ActionView::Prepare(statements(list@)),
            Action::FetchCandles => action@ == ActionView::FetchCandles,
            Action::Compute(prices) => action@ == ActionView::Compute(prices@),
            Action::Save(statement) => action@ == ActionView::Save(statement@),
            Action::Prune(statement) => action@ == ActionView::Prune(statement@),
            Action::FetchWallet => action@ == ActionView::FetchWallet,
            Action::FetchPrice => action@ == ActionView::FetchPrice,
            Action::ReadCandles(statement) => action@ == ActionView::ReadCandles(statement@),
            Action::Record(statement) => action@ == ActionView::Record(statement@),
            Action::Trade(order) => action@ == ActionView::Trade(order),
            Action::Print(line) => action@ == ActionView::Print(line@),
            Action::Pause(seconds) => action@ == ActionView::Pause(seconds as nat),
        },
{
}

/// Actions are seen one by one, in order.
pub proof fn law_lists_of_actions_are_seen_in_order(list: Seq<Action>)
    ensures
        actions(list).len() == list.len(),
        forall|i: int| 0 <= i < list.len() ==> #[trigger] actions(list)[i] == list[i]@,
{
}

/// The bot is seen as it is.
pub proof fn law_bots_are_seen_as_they_are(bot: Bot)
    ensures
        bot@.state == bot.state,
        bot@.candle == bot.candle,
        match bot.phase {
            Phase::New => bot@.phase == PhaseView::New,
            Phase::AwaitingCandles => bot@.phase == PhaseView::AwaitingCandles,
            Phase::WarmingUp { candles } => bot@.phase == (PhaseView::WarmingUp {
                candles: candles@,
            }),
            Phase::Resting => bot@.phase == PhaseView::Resting,
            Phase::AwaitingPrice => bot@.phase == PhaseView::AwaitingPrice,
            Phase::AwaitingHistory { price } => bot@.phase == (PhaseView::AwaitingHistory {
                price,
            }),
            Phase::AwaitingIndicators { price } => bot@.phase == (PhaseView::AwaitingIndicators {
                price,
            }),
        },
{
}

} // verus!
