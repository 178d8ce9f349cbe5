//! What holds of the bot over any course of events.

use crate::bot::{decision_actions, latest, rest, save, ActionView, BotView, EventView, Outcome};
use crate::bot::{save_all, PhaseView};
use crate::clock::Moment;
use crate::dashboard::{law_log_keeps_the_latest_lines, logged, logged_all, DashboardView};
use crate::dashboard::LOG_LINES;
use crate::db::{log_trade_statement, SqlView, StatementView};
use crate::double::Double;
use crate::orders::{shutdown_sale, Order, Side};
use crate::strategy::{decision, profit_of, BotState, Decision};
use vstd::prelude::*;

verus! {

/// What can happen: an event for the bot, or a reading of the wallet.
pub enum Happening {
    Step(EventView),
    Wallet { usdt: Double, btc: Double },
}

/// The bot and its dashboard at the beginning.
pub open spec fn beginning() -> Outcome {
    Outcome {
        bot: BotView::initial(),
        dashboard: DashboardView::initial(),
        actions: seq![],
    }
}

/// The bot, its dashboard and all actions so far, after one more happening.
#[verifier::opaque]
pub open spec fn after(before: Outcome, happening: Happening) -> Outcome {
    match happening {
        Happening::Step(event) => {
            let step = before.bot.step(before.dashboard, event);
            Outcome { actions: before.actions + step.actions, ..step }
        },
        Happening::Wallet { usdt, btc } => Outcome {
            dashboard: before.dashboard.with_wallet(usdt, btc),
            ..before
        },
    }
}

/// The bot, its dashboard and all actions so far, after a course of happenings.
pub open spec fn course(happenings: Seq<Happening>) -> Outcome
    decreases happenings.len(),
{
    if happenings.len() == 0 {
        beginning()
    } else {
        after(course(happenings.drop_last()), happenings.last())
    }
}

/// The dashboard shows the entry price of the position, and zero without one.
pub open spec fn shows_position(bot: BotView, dashboard: DashboardView) -> bool {
    match bot.state {
        BotState::Idle => dashboard.entry_price == (Double { bits: 0 }),
        BotState::InPosition { entry_price, .. } => dashboard.entry_price == entry_price,
    }
}

/// At any time the dashboard shows the entry price of the position, and zero without one.
pub proof fn law_dashboard_shows_the_position(happenings: Seq<Happening>)
    ensures
        shows_position(course(happenings).bot, course(happenings).dashboard),
    decreases happenings.len(),
{
    if happenings.len() > 0 {
        law_dashboard_shows_the_position(happenings.drop_last());
        reveal(after);
    }
}

/// On shutdown something is sold exactly if a position is open, provided that positions are
/// entered at positive prices.
pub proof fn law_shutdown_sells_an_open_position(happenings: Seq<Happening>)
    requires
        course(happenings).bot.state matches BotState::InPosition { entry_price, .. } ==> (Double {
            bits: 0,
        }).is_below(entry_price),
    ensures
        shutdown_sale(course(happenings).dashboard) is Some <==> course(happenings).bot.state
            is InPosition,
{
    law_dashboard_shows_the_position(happenings);
}

/// What is picked from actions, in order.
pub open spec fn picked<T>(actions: Seq<ActionView>, pick: spec_fn(ActionView) -> Option<T>) -> Seq<T>
    decreases actions.len(),
{
    if actions.len() == 0 {
        seq![]
    } else {
        match pick(actions.last()) {
            Some(x) => picked(actions.drop_last(), pick).push(x),
            None => picked(actions.drop_last(), pick),
        }
    }
}

/// Picks the trade of an action.
pub open spec fn trade() -> spec_fn(ActionView) -> Option<Order> {
    |a: ActionView|
        match a {
            ActionView::Trade(order) => Some(order),
            _ => None,
        }
}

/// Picks the record that an action makes of a closed position.
pub open spec fn record() -> spec_fn(ActionView) -> Option<StatementView> {
    |a: ActionView|
        match a {
            ActionView::Record(statement) => Some(statement),
            _ => None,
        }
}

/// Picks the line that an action prints.
pub open spec fn line() -> spec_fn(ActionView) -> Option<Seq<char>> {
    |a: ActionView|
        match a {
            ActionView::Print(text) => Some(text),
            _ => None,
        }
}

/// The trades among actions.
pub open spec fn trades(actions: Seq<ActionView>) -> Seq<Order> {
    picked(actions, trade())
}

/// The records of closed positions among actions.
pub open spec fn records(actions: Seq<ActionView>) -> Seq<StatementView> {
    picked(actions, record())
}

/// The lines printed among actions.
pub open spec fn prints(actions: Seq<ActionView>) -> Seq<Seq<char>> {
    picked(actions, line())
}

proof fn lemma_picked_concat<T>(
    a: Seq<ActionView>,
    b: Seq<ActionView>,
    pick: spec_fn(ActionView) -> Option<T>,
)
    ensures
        picked(a + b, pick) == picked(a, pick) + picked(b, pick),
    decreases b.len(),
{
    if b.len() == 0 {
        assert(a + b =~= a);
        assert(picked(a, pick) + picked(b, pick) =~= picked(a, pick));
    } else {
        assert((a + b).drop_last() =~= a + b.drop_last());
        lemma_picked_concat(a, b.drop_last(), pick);
        assert(picked(a + b, pick) =~= picked(a, pick) + picked(b, pick));
    }
}

proof fn lemma_picked_none<T>(a: Seq<ActionView>, pick: spec_fn(ActionView) -> Option<T>)
    requires
        forall|i: int| 0 <= i < a.len() ==> pick(#[trigger] a[i]) is None,
    ensures
        picked(a, pick) == Seq::<T>::empty(),
    decreases a.len(),
{
    if a.len() > 0 {
        assert(pick(a[a.len() - 1]) is None);
        assert forall|i: int| 0 <= i < a.drop_last().len() implies pick(
            #[trigger] a.drop_last()[i],
        ) is None by {
            assert(a.drop_last()[i] == a[i]);
        }
        lemma_picked_none(a.drop_last(), pick);
    }
}

/// What is picked from three actions at most, one after the other.
proof fn lemma_picked_few<T>(a: Seq<ActionView>, pick: spec_fn(ActionView) -> Option<T>)
    requires
        a.len() <= 3,
    ensures
        picked(a, pick) == ({
            let one = if a.len() > 0 && pick(a[0]) is Some {
                seq![pick(a[0])->0]
            } else {
                seq![]
            };
            let two = if a.len() > 1 && pick(a[1]) is Some {
                seq![pick(a[1])->0]
            } else {
                seq![]
            };
            let three = if a.len() > 2 && pick(a[2]) is Some {
                seq![pick(a[2])->0]
            } else {
                seq![]
            };
            one + two + three
        }),
    decreases a.len(),
{
    if a.len() > 0 {
        lemma_picked_few(a.drop_last(), pick);
    }
}

/// What is picked from the actions after an evaluation comes from the decision.
proof fn lemma_picked_of_evaluation<T>(
    first: ActionView,
    middle: Seq<ActionView>,
    pick: spec_fn(ActionView) -> Option<T>,
)
    requires
        pick(first) is None,
        pick(rest()) is None,
    ensures
        picked(seq![first] + middle + seq![rest()], pick) == picked(middle, pick),
{
    lemma_picked_concat(seq![first] + middle, seq![rest()], pick);
    lemma_picked_concat(seq![first], middle, pick);
    lemma_picked_none(seq![first], pick);
    lemma_picked_none(seq![rest()], pick);
    assert(picked(seq![first] + middle + seq![rest()], pick) =~= picked(middle, pick));
}

/// What the trades of one step do to the position: there are none and it stays, there is a buy
/// that opens it, or there is a sale that closes it.
pub open spec fn step_trades(before: BotState, made: Seq<Order>, after: BotState) -> bool {
    match (before, after) {
        (BotState::Idle, BotState::Idle) => made.len() == 0,
        (BotState::Idle, BotState::InPosition { entry_price, quantity, .. }) => made.len() == 1
            && made[0].side == Side::Buy && made[0].price == entry_price && made[0].quantity
            == quantity,
        (BotState::InPosition { quantity, .. }, BotState::Idle) => made.len() == 1 && made[0].side
            == Side::Sell && made[0].quantity == quantity,
        (
            BotState::InPosition { entry_price: entry, quantity: held, .. },
            BotState::InPosition { entry_price, quantity, .. },
        ) => made.len() == 0 && entry == entry_price && held == quantity,
    }
}

proof fn lemma_step_trades(bot: BotView, dashboard: DashboardView, event: EventView)
    ensures
        step_trades(
            bot.state,
            trades(bot.step(dashboard, event).actions),
            bot.step(dashboard, event).bot.state,
        ),
{
    let actions = bot.step(dashboard, event).actions;
    match (bot.phase, event) {
        (PhaseView::AwaitingIndicators { price }, EventView::Computed { outputs, at }) => {
            let now = latest(outputs);
            let choice = decision(bot.state, price, now.rsi, now.bb_lower).1;
            let middle = decision_actions(choice, price, at);
            lemma_picked_of_evaluation(save(bot.candle, now), middle, trade());
            lemma_picked_few(middle, trade());
        },
        _ => {
            lemma_picked_none(actions, trade());
        },
    }
}

/// Trades alternate, beginning with a buy, and each sale sells the quantity bought before it. The
/// state is idle after a sale, and after a buy it is the position that this buy opened.
pub open spec fn alternating(made: Seq<Order>, state: BotState) -> bool {
    &&& forall|i: int|
        0 <= i < made.len() ==> (#[trigger] made[i]).side == (if i % 2 == 0 {
            Side::Buy
        } else {
            Side::Sell
        })
    &&& forall|i: int|
        0 <= i < made.len() && i % 2 == 1 ==> (#[trigger] made[i]).quantity == made[i - 1].quantity
    &&& state is Idle <==> made.len() % 2 == 0
    &&& state matches BotState::InPosition { entry_price, quantity, .. } ==> entry_price
        == made.last().price && quantity == made.last().quantity
}

proof fn lemma_alternating(
    made: Seq<Order>,
    before: BotState,
    more: Seq<Order>,
    after: BotState,
)
    requires
        alternating(made, before),
        step_trades(before, more, after),
    ensures
        alternating(made + more, after),
{
    if more.len() == 0 {
        assert(made + more =~= made);
    } else {
        assert(made + more =~= made.push(more[0]));
    }
}

proof fn lemma_alternating_after(before: Outcome, happening: Happening)
    requires
        alternating(trades(before.actions), before.bot.state),
    ensures
        alternating(
            trades(after(before, happening).actions),
            after(before, happening).bot.state,
        ),
{
    reveal(after);
    match happening {
        Happening::Step(event) => {
            let step = before.bot.step(before.dashboard, event);
            lemma_step_trades(before.bot, before.dashboard, event);
            lemma_picked_concat(before.actions, step.actions, trade());
            lemma_alternating(
                trades(before.actions),
                before.bot.state,
                trades(step.actions),
                step.bot.state,
            );
        },
        Happening::Wallet { .. } => {},
    }
}

/// Over any course of events trades alternate: positions never add up, and each is closed whole
/// before the next one is opened.
pub proof fn law_trades_alternate(happenings: Seq<Happening>)
    ensures
        alternating(trades(course(happenings).actions), course(happenings).bot.state),
    decreases happenings.len(),
{
    if happenings.len() > 0 {
        law_trades_alternate(happenings.drop_last());
        lemma_alternating_after(course(happenings.drop_last()), happenings.last());
    }
}

/// Whether a record is that of the sale that closed the position of a buy: it holds the price of
/// the sale, the quantity bought, and the profit of the two prices on that quantity.
#[verifier::opaque]
pub open spec fn records_sale(row: StatementView, bought: Order, sold: Order) -> bool {
    exists|at: Moment|
        row == #[trigger] log_trade_statement(
            "sell"@,
            sold.price,
            bought.quantity,
            profit_of(bought.price, sold.price, bought.quantity),
            at,
        )
}

/// Whether there is one record for each sale, in order.
pub open spec fn all_recorded(rows: Seq<StatementView>, made: Seq<Order>) -> bool {
    &&& rows.len() == made.len() / 2
    &&& forall|i: int|
        0 <= i < rows.len() ==> records_sale(#[trigger] rows[i], made[2 * i], made[2 * i + 1])
}

/// The records of one step: one if it closes a position, with the profit on that position.
pub open spec fn step_records(
    before: BotState,
    made: Seq<Order>,
    rows: Seq<StatementView>,
    after: BotState,
) -> bool {
    match (before, after) {
        (BotState::InPosition { entry_price, quantity, .. }, BotState::Idle) => rows.len() == 1
            && records_sale(
            rows[0],
            (Order { side: Side::Buy, price: entry_price, quantity }),
            made[0],
        ),
        _ => rows.len() == 0,
    }
}

proof fn lemma_step_records(bot: BotView, dashboard: DashboardView, event: EventView)
    ensures
        step_records(
            bot.state,
            trades(bot.step(dashboard, event).actions),
            records(bot.step(dashboard, event).actions),
            bot.step(dashboard, event).bot.state,
        ),
{
    let actions = bot.step(dashboard, event).actions;
    match (bot.phase, event) {
        (PhaseView::AwaitingIndicators { price }, EventView::Computed { outputs, at }) => {
            let now = latest(outputs);
            let choice = decision(bot.state, price, now.rsi, now.bb_lower).1;
            let middle = decision_actions(choice, price, at);
            lemma_picked_of_evaluation(save(bot.candle, now), middle, trade());
            lemma_picked_of_evaluation(save(bot.candle, now), middle, record());
            lemma_picked_few(middle, trade());
            lemma_picked_few(middle, record());
            reveal(records_sale);
            if let BotState::InPosition { entry_price, quantity, .. } = bot.state {
                if choice is StopLoss || choice is TakeProfit {
                    let bought = Order { side: Side::Buy, price: entry_price, quantity };
                    assert(trades(actions)[0].price == price);
                    assert(records(actions)[0] == log_trade_statement(
                        "sell"@,
                        price,
                        bought.quantity,
                        profit_of(bought.price, price, bought.quantity),
                        at,
                    ));
                    assert(records_sale(records(actions)[0], bought, trades(actions)[0]));
                }
            }
        },
        _ => {
            lemma_picked_none(actions, record());
        },
    }
}

proof fn lemma_all_recorded(
    made: Seq<Order>,
    rows: Seq<StatementView>,
    before: BotState,
    more: Seq<Order>,
    more_rows: Seq<StatementView>,
    after: BotState,
)
    requires
        before is Idle <==> made.len() % 2 == 0,
        before matches BotState::InPosition { entry_price, quantity, .. } ==> entry_price
            == made.last().price && quantity == made.last().quantity,
        all_recorded(rows, made),
        step_trades(before, more, after),
        step_records(before, more, more_rows, after),
    ensures
        all_recorded(rows + more_rows, made + more),
{
    let (all, all_rows) = (made + more, rows + more_rows);
    assert forall|i: int| 0 <= i < all_rows.len() implies records_sale(
        #[trigger] all_rows[i],
        all[2 * i],
        all[2 * i + 1],
    ) by {
        if i < rows.len() {
            assert(all_rows[i] == rows[i]);
            assert(all[2 * i] == made[2 * i] && all[2 * i + 1] == made[2 * i + 1]);
        } else {
            let bought = made.last();
            let held = Order { side: Side::Buy, price: bought.price, quantity: bought.quantity };
            assert(i == rows.len() && 2 * i == made.len() - 1);
            assert(all_rows[i] == more_rows[0]);
            assert(all[2 * i] == bought && all[2 * i + 1] == more[0]);
            assert(records_sale(more_rows[0], held, more[0]));
            assert(records_sale(more_rows[0], bought, more[0])) by {
                reveal(records_sale);
            }
        }
    }
}

proof fn lemma_recorded_after(before: Outcome, happening: Happening)
    requires
        alternating(trades(before.actions), before.bot.state),
        all_recorded(records(before.actions), trades(before.actions)),
    ensures
        all_recorded(
            records(after(before, happening).actions),
            trades(after(before, happening).actions),
        ),
{
    reveal(after);
    match happening {
        Happening::Step(event) => {
            let step = before.bot.step(before.dashboard, event);
            lemma_step_trades(before.bot, before.dashboard, event);
            lemma_step_records(before.bot, before.dashboard, event);
            lemma_picked_concat(before.actions, step.actions, trade());
            lemma_picked_concat(before.actions, step.actions, record());
            lemma_all_recorded(
                trades(before.actions),
                records(before.actions),
                before.bot.state,
                trades(step.actions),
                records(step.actions),
                step.bot.state,
            );
        },
        Happening::Wallet { .. } => {},
    }
}

/// Over any course of events each sale has its record, in order: the price of the sale, the
/// quantity bought before it, and the profit, which is the difference of the two prices times
/// that quantity.
pub proof fn law_each_sale_is_recorded(happenings: Seq<Happening>)
    ensures
        all_recorded(records(course(happenings).actions), trades(course(happenings).actions)),
    decreases happenings.len(),
{
    if happenings.len() > 0 {
        law_trades_alternate(happenings.drop_last());
        law_each_sale_is_recorded(happenings.drop_last());
        lemma_recorded_after(course(happenings.drop_last()), happenings.last());
    }
}

/// The profit in a record.
pub open spec fn profit_in(row: StatementView) -> Double {
    match row.params[3] {
        SqlView::Real(profit) => profit,
        _ => Double { bits: 0 },
    }
}

/// The profits among recorded trades.
pub open spec fn profits(actions: Seq<ActionView>) -> Seq<Double> {
    records(actions).map_values(|row: StatementView| profit_in(row))
}

/// The sum of profits, added one by one from zero.
pub open spec fn total(list: Seq<Double>) -> Double
    decreases list.len(),
{
    if list.len() == 0 {
        Double { bits: 0 }
    } else {
        total(list.drop_last()).sum(list.last())
    }
}

proof fn lemma_profits_concat(a: Seq<ActionView>, b: Seq<ActionView>)
    ensures
        profits(a + b) == profits(a) + profits(b),
{
    lemma_picked_concat(a, b, record());
    assert(profits(a + b) =~= profits(a) + profits(b));
}

/// One step adds the profit that it records, if it records one, to the realized profit.
pub open spec fn step_profits(before: Double, made: Seq<Double>, realized: Double) -> bool {
    if made.len() == 0 {
        realized == before
    } else {
        made.len() == 1 && realized == before.sum(made[0])
    }
}

proof fn lemma_step_profits(bot: BotView, dashboard: DashboardView, event: EventView)
    ensures
        step_profits(
            dashboard.realized_pl,
            profits(bot.step(dashboard, event).actions),
            bot.step(dashboard, event).dashboard.realized_pl,
        ),
{
    let actions = bot.step(dashboard, event).actions;
    match (bot.phase, event) {
        (PhaseView::AwaitingIndicators { price }, EventView::Computed { outputs, at }) => {
            let now = latest(outputs);
            let choice = decision(bot.state, price, now.rsi, now.bb_lower).1;
            let middle = decision_actions(choice, price, at);
            lemma_picked_of_evaluation(save(bot.candle, now), middle, record());
            lemma_picked_few(middle, record());
        },
        _ => {
            lemma_picked_none(actions, record());
        },
    }
}

proof fn lemma_total_after(before: Outcome, happening: Happening)
    requires
        before.dashboard.realized_pl == total(profits(before.actions)),
    ensures
        after(before, happening).dashboard.realized_pl == total(
            profits(after(before, happening).actions),
        ),
{
    reveal(after);
    match happening {
        Happening::Step(event) => {
            let step = before.bot.step(before.dashboard, event);
            lemma_step_profits(before.bot, before.dashboard, event);
            lemma_profits_concat(before.actions, step.actions);
            let old_profits = profits(before.actions);
            let made = profits(step.actions);
            if made.len() == 0 {
                assert(old_profits + made =~= old_profits);
            } else {
                assert((old_profits + made).drop_last() =~= old_profits);
                assert((old_profits + made).last() == made[0]);
            }
        },
        Happening::Wallet { .. } => {},
    }
}

/// At any time the realized profit that the dashboard shows is the sum of the profits of the
/// recorded sales.
pub proof fn law_realized_profit_is_the_sum_of_recorded_profits(happenings: Seq<Happening>)
    ensures
        course(happenings).dashboard.realized_pl == total(profits(course(happenings).actions)),
    decreases happenings.len(),
{
    if happenings.len() > 0 {
        law_realized_profit_is_the_sum_of_recorded_profits(happenings.drop_last());
        lemma_total_after(course(happenings.drop_last()), happenings.last());
    }
}

/// One step logs the line that it prints, if it prints one.
pub open spec fn step_prints(
    before: Seq<Seq<char>>,
    lines: Seq<Seq<char>>,
    logs: Seq<Seq<char>>,
) -> bool {
    if lines.len() == 0 {
        logs == before
    } else {
        lines.len() == 1 && logs == logged(before, lines[0])
    }
}

proof fn lemma_step_prints(bot: BotView, dashboard: DashboardView, event: EventView)
    ensures
        step_prints(
            dashboard.logs,
            prints(bot.step(dashboard, event).actions),
            bot.step(dashboard, event).dashboard.logs,
        ),
{
    let step = bot.step(dashboard, event);
    match (bot.phase, event) {
        (PhaseView::WarmingUp { candles }, EventView::Computed { outputs, at }) => {
            let saved = save_all(candles, outputs);
            let others = step.actions.skip(saved.len() as int);
            assert(step.actions =~= saved + others);
            lemma_picked_concat(saved, others, line());
            lemma_picked_none(saved, line());
            lemma_picked_few(others, line());
        },
        (PhaseView::Resting, EventView::Woke { since_prune, since_wallet, at }) => {
            let first = step.actions.drop_last();
            assert(step.actions =~= first + seq![ActionView::FetchPrice]);
            lemma_picked_concat(first, seq![ActionView::FetchPrice], line());
            lemma_picked_few(first, line());
            lemma_picked_few(seq![ActionView::FetchPrice], line());
        },
        (PhaseView::AwaitingIndicators { price }, EventView::Computed { outputs, at }) => {
            let now = latest(outputs);
            let choice = decision(bot.state, price, now.rsi, now.bb_lower).1;
            let middle = decision_actions(choice, price, at);
            lemma_picked_of_evaluation(save(bot.candle, now), middle, line());
            lemma_picked_few(middle, line());
        },
        _ => {
            lemma_picked_none(step.actions, line());
        },
    }
}

proof fn lemma_printed_after(before: Outcome, happening: Happening)
    requires
        before.dashboard.logs == logged_all(seq![], prints(before.actions)),
    ensures
        after(before, happening).dashboard.logs == logged_all(
            seq![],
            prints(after(before, happening).actions),
        ),
{
    reveal(after);
    match happening {
        Happening::Step(event) => {
            let step = before.bot.step(before.dashboard, event);
            lemma_step_prints(before.bot, before.dashboard, event);
            lemma_picked_concat(before.actions, step.actions, line());
            let (lines, more) = (prints(before.actions), prints(step.actions));
            if more.len() == 0 {
                assert(lines + more =~= lines);
            } else {
                assert((lines + more).drop_last() =~= lines);
                assert((lines + more).last() == more[0]);
            }
        },
        Happening::Wallet { .. } => {},
    }
}

/// At any time the log holds the latest of the lines printed so far, the newest first, and is
/// within its limit.
pub proof fn law_log_is_what_was_printed(happenings: Seq<Happening>)
    ensures
        course(happenings).dashboard.logs == logged_all(
            seq![],
            prints(course(happenings).actions),
        ),
        course(happenings).dashboard.logs.len() <= LOG_LINES,
    decreases happenings.len(),
{
    if happenings.len() > 0 {
        law_log_is_what_was_printed(happenings.drop_last());
        lemma_printed_after(course(happenings.drop_last()), happenings.last());
    }
    law_log_keeps_the_latest_lines(seq![], prints(course(happenings).actions));
}

/// Whether a status tells of the given state, as the evaluation of a tick leaves it.
pub open spec fn status_after_tick(status: Seq<char>, state: BotState) -> bool {
    match state {
        BotState::Idle => status == "IDLE"@ || status == "IDLE (Scanning)"@,
        BotState::InPosition { .. } => status == "IN POSITION"@ || status == "HOLDING"@,
    }
}

/// Whether a status tells of the given state.
pub open spec fn status_tells(status: Seq<char>, state: BotState) -> bool {
    status_after_tick(status, state) || state is Idle && status == "Starting..."@
}

proof fn lemma_status_is_unambiguous(status: Seq<char>, a: BotState, b: BotState)
    requires
        status_tells(status, a),
        status_tells(status, b),
    ensures
        a is Idle <==> b is Idle,
{
    reveal_strlit("Starting...");
    reveal_strlit("IDLE");
    reveal_strlit("IDLE (Scanning)");
    reveal_strlit("IN POSITION");
    reveal_strlit("HOLDING");
    assert("Starting..."@.len() == 11 && "Starting..."@[0] == 'S');
    assert("IDLE"@.len() == 4 && "IDLE (Scanning)"@.len() == 15);
    assert("IN POSITION"@.len() == 11 && "IN POSITION"@[0] == 'I');
    assert("HOLDING"@.len() == 7);
}

/// At any time the status that the dashboard shows tells whether a position is open.
pub proof fn law_status_tells_the_state(happenings: Seq<Happening>)
    ensures
        status_tells(course(happenings).dashboard.status, course(happenings).bot.state),
        forall|other: BotState| #[trigger]
            status_tells(course(happenings).dashboard.status, other) ==> (other is Idle <==> course(
                happenings,
            ).bot.state is Idle),
    decreases happenings.len(),
{
    if happenings.len() > 0 {
        law_status_tells_the_state(happenings.drop_last());
        reveal(after);
    }
    let status = course(happenings).dashboard.status;
    let state = course(happenings).bot.state;
    assert forall|other: BotState| #[trigger] status_tells(status, other) implies (other is Idle
        <==> state is Idle) by {
        lemma_status_is_unambiguous(status, state, other);
    }
}

/// Whether a tick is evaluated at the `i`-th happening.
pub open spec fn evaluates(happenings: Seq<Happening>, i: int) -> bool {
    &&& 0 <= i < happenings.len()
    &&& course(happenings.take(i)).bot.phase is AwaitingIndicators
    &&& happenings[i] matches Happening::Step(event) && event is Computed
}

/// Once a tick has been evaluated, the status is never again that of the start: it tells of
/// scanning, of a closed position, of a new one or of one held, as the state is.
pub proof fn law_status_after_the_first_tick(happenings: Seq<Happening>, i: int)
    requires
        evaluates(happenings, i),
    ensures
        status_after_tick(course(happenings).dashboard.status, course(happenings).bot.state),
        course(happenings).dashboard.status != "Starting..."@,
    decreases happenings.len(),
{
    let init = happenings.drop_last();
    if i == happenings.len() - 1 {
        assert(happenings.take(i) =~= init);
    } else {
        assert(happenings.take(i) =~= init.take(i));
        law_status_after_the_first_tick(init, i);
    }
    reveal(after);
    reveal_strlit("Starting...");
    reveal_strlit("IDLE");
    reveal_strlit("IDLE (Scanning)");
    reveal_strlit("IN POSITION");
    reveal_strlit("HOLDING");
    assert("Starting..."@.len() == 11 && "Starting..."@[0] == 'S');
    assert("IDLE"@.len() == 4 && "IDLE (Scanning)"@.len() == 15);
    assert("IN POSITION"@.len() == 11 && "IN POSITION"@[0] == 'I');
    assert("HOLDING"@.len() == 7);
}

/// Whether the bot waits for an event in a phase.
pub open spec fn awaited(phase: PhaseView, event: EventView) -> bool {
    match phase {
        PhaseView::New => event is Started,
        PhaseView::AwaitingCandles => event is Candles,
        PhaseView::WarmingUp { .. } => event is Computed,
        PhaseView::Resting => event is Woke,
        PhaseView::AwaitingPrice => event is Price,
        PhaseView::AwaitingHistory { .. } => event is History,
        PhaseView::AwaitingIndicators { .. } => event is Computed,
    }
}

/// Whether an action brings about an event.
pub open spec fn brings(action: ActionView, event: EventView) -> bool {
    match action {
        ActionView::FetchCandles => event is Candles,
        ActionView::Compute(_) => event is Computed,
        ActionView::Pause(_) => event is Woke,
        ActionView::FetchPrice => event is Price,
        ActionView::ReadCandles(_) => event is History,
        _ => false,
    }
}

/// Whether actions end with one that brings about just the events that are awaited in a phase, and
/// hold no other that brings about an event.
pub open spec fn leads_on(actions: Seq<ActionView>, phase: PhaseView) -> bool {
    &&& actions.len() > 0
    &&& forall|next: EventView| #[trigger] brings(actions.last(), next) <==> awaited(phase, next)
    &&& forall|i: int, next: EventView|
        0 <= i < actions.len() - 1 ==> !(#[trigger] brings(actions[i], next))
}

/// The bot never stalls: an awaited event leads to actions of which the last one brings about
/// what the bot then waits for.
pub proof fn law_bot_never_stalls(bot: BotView, dashboard: DashboardView, event: EventView)
    requires
        awaited(bot.phase, event),
    ensures
        leads_on(bot.step(dashboard, event).actions, bot.step(dashboard, event).bot.phase),
{
    match (bot.phase, event) {
        (PhaseView::New, EventView::Started) => {},
        (PhaseView::AwaitingCandles, EventView::Candles(candles)) => {},
        (PhaseView::WarmingUp { candles }, EventView::Computed { outputs, at }) => {
            let saved = save_all(candles, outputs);
            assert(bot.step(dashboard, event).actions.take(saved.len() as int) =~= saved);
        },
        (PhaseView::Resting, EventView::Woke { since_prune, since_wallet, at }) => {},
        (PhaseView::AwaitingPrice, EventView::Price { price, at }) => {},
        (PhaseView::AwaitingHistory { price }, EventView::History(candles)) => {},
        (PhaseView::AwaitingIndicators { price }, EventView::Computed { outputs, at }) => {
            let now = latest(outputs);
            let choice = decision(bot.state, price, now.rsi, now.bb_lower).1;
            lemma_evaluation_leads_on(save(bot.candle, now), choice, price, at);
        },
        _ => {},
    }
}

proof fn lemma_evaluation_leads_on(
    first: ActionView,
    choice: Decision,
    price: Double,
    at: Moment,
)
    requires
        first is Save,
    ensures
        leads_on(
            seq![first] + decision_actions(choice, price, at) + seq![rest()],
            PhaseView::Resting,
        ),
{
}

/// An event that the bot does not wait for changes nothing.
pub proof fn law_unexpected_events_change_nothing(
    bot: BotView,
    dashboard: DashboardView,
    event: EventView,
)
    requires
        !awaited(bot.phase, event),
    ensures
        bot.step(dashboard, event) == (Outcome { bot, dashboard, actions: seq![] }),
{
}

} // verus!
